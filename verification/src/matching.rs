//! Pairing the output ports of every node with the input ports of the nodes
//! that its edges lead to.
//!
//! The edges that leave a node are put in the order of the horizontal
//! middles of their targets and take the output ports of the node from left
//! to right. At its target an edge takes the input port whose place among
//! the input ports, from left to right, is the place of the edge among the
//! edges that come in, ordered by the horizontal middles of their sources.

use crate::graph::{EdgeRecord, GraphSnapshot};
use crate::ports::{
    border_ports, center_of, center_x_of, degree, near_end, node_ports, ports_upto, rect_of,
    rects_wf, NodeRect, PortPosition,
};
use crate::types::{PortKind, PortLine};
use vstd::prelude::*;

verus! {

/// An item with the number it is ordered by.
#[derive(Clone, Copy, Debug)]
pub struct Keyed {
    pub key: i64,
    pub item: usize,
}

/// Where an item with key `key` goes into an ordered list: behind the last
/// item whose key is not greater.
pub open spec fn slot_for(s: Seq<Keyed>, key: i64) -> int
    decreases s.len(),
{
    if s.len() == 0 {
        0
    } else if s.last().key <= key {
        s.len() as int
    } else {
        slot_for(s.drop_last(), key)
    }
}

/// The items in the order of their keys; items with the same key keep the
/// order they came in.
pub open spec fn sorted_by_key(s: Seq<Keyed>) -> Seq<Keyed>
    decreases s.len(),
{
    if s.len() == 0 {
        s
    } else {
        let front = sorted_by_key(s.drop_last());
        front.insert(slot_for(front, s.last().key), s.last())
    }
}

/// No key is greater than a key behind it.
pub open spec fn ordered(s: Seq<Keyed>) -> bool {
    forall|i: int, j: int| 0 <= i < j < s.len() ==> s[i].key <= s[j].key
}

/// The slot for a key lies within the list; in an ordered list no key
/// before the slot is greater than the key, and every key from the slot on
/// is.
pub proof fn lemma_slot_for(s: Seq<Keyed>, key: i64)
    ensures
        0 <= slot_for(s, key) <= s.len(),
        ordered(s) ==> forall|i: int| 0 <= i < slot_for(s, key) ==> (#[trigger] s[i]).key <= key,
        forall|i: int| slot_for(s, key) <= i < s.len() ==> (#[trigger] s[i]).key > key,
    decreases s.len(),
{
    if s.len() > 0 && s.last().key > key {
        let front = s.drop_last();
        lemma_slot_for(front, key);
        assert forall|i: int| slot_for(s, key) <= i < s.len() implies (#[trigger] s[i]).key
            > key by {
            if i < front.len() {
                assert(front[i] == s[i]);
            }
        }
        if ordered(s) {
            assert forall|i: int, j: int| 0 <= i < j < front.len() implies front[i].key
                <= front[j].key by {
                assert(front[i] == s[i] && front[j] == s[j]);
            }
            assert forall|i: int| 0 <= i < slot_for(s, key) implies (#[trigger] s[i]).key
                <= key by {
                assert(front[i] == s[i]);
            }
        }
    }
}

/// The sorted list is ordered, is as long as the list it was made from, and
/// holds the same items.
pub proof fn lemma_sorted_by_key(s: Seq<Keyed>)
    ensures
        ordered(sorted_by_key(s)),
        sorted_by_key(s).len() == s.len(),
        forall|i: int| 0 <= i < s.len() ==> sorted_by_key(s).contains(#[trigger] s[i]),
        forall|i: int| 0 <= i < s.len() ==> s.contains(#[trigger] sorted_by_key(s)[i]),
    decreases s.len(),
{
    if s.len() > 0 {
        let front_in = s.drop_last();
        let front = sorted_by_key(front_in);
        let x = s.last();
        let at = slot_for(front, x.key);
        let out = sorted_by_key(s);
        lemma_sorted_by_key(front_in);
        lemma_slot_for(front, x.key);
        assert(out == front.insert(at, x));
        assert forall|i: int, j: int| 0 <= i < j < out.len() implies out[i].key <= out[j].key by {
            if i < at && j > at {
                assert(out[i] == front[i] && out[j] == front[j - 1]);
            } else if i < at && j < at {
                assert(out[i] == front[i] && out[j] == front[j]);
            } else if i > at {
                assert(out[i] == front[i - 1] && out[j] == front[j - 1]);
            } else if i == at {
                assert(out[j] == front[j - 1]);
            } else {
                assert(out[i] == front[i]);
            }
        }
        assert forall|i: int| 0 <= i < s.len() implies out.contains(#[trigger] s[i]) by {
            if i == s.len() - 1 {
                assert(out[at] == x);
            } else {
                assert(front_in[i] == s[i]);
                let k = choose|k: int| 0 <= k < front.len() && front[k] == front_in[i];
                if k < at {
                    assert(out[k] == front[k]);
                } else {
                    assert(out[k + 1] == front[k]);
                }
            }
        }
        assert forall|i: int| 0 <= i < s.len() implies s.contains(#[trigger] out[i]) by {
            if i == at {
                assert(s[s.len() - 1] == x);
            } else {
                let k = if i < at {
                    i
                } else {
                    i - 1
                };
                assert(out[i] == front[k]);
                assert(front_in.contains(front[k]));
                let w = choose|w: int| 0 <= w < front_in.len() && front_in[w] == front[k];
                assert(s[w] == front_in[w]);
            }
        }
    }
}

/// Puts the items in the order of their keys; items with the same key keep
/// the order they came in.
pub fn sort_by_key(items: &Vec<Keyed>) -> (out: Vec<Keyed>)
    ensures
        out@ == sorted_by_key(items@),
        out.len() == items.len(),
{
    let mut out: Vec<Keyed> = Vec::new();
    let mut i: usize = 0;
    while i < items.len()
        invariant
            0 <= i <= items.len(),
            out@ == sorted_by_key(items@.take(i as int)),
            out.len() == i,
        decreases items.len() - i,
    {
        let x: Keyed = items[i];
        let mut j: usize = out.len();
        proof {
            assert(out@.take(out.len() as int) =~= out@);
        }
        while j > 0 && out[j - 1].key > x.key
            invariant
                0 <= j <= out.len(),
                slot_for(out@, x.key) == slot_for(out@.take(j as int), x.key),
            decreases j,
        {
            proof {
                assert(out@.take(j as int).drop_last() =~= out@.take(j as int - 1));
            }
            j -= 1;
        }
        proof {
            assert(out@.take(out.len() as int) =~= out@);
            assert(items@.take(i as int + 1).drop_last() =~= items@.take(i as int));
            lemma_sorted_by_key(items@.take(i as int));
        }
        out.insert(j, x);
        i += 1;
    }
    proof {
        assert(items@.take(items.len() as int) =~= items@);
    }
    out
}

/// The place of the first entry for `item`.
pub open spec fn find_item(s: Seq<Keyed>, item: usize) -> Option<int>
    decreases s.len(),
{
    if s.len() == 0 {
        None
    } else {
        match find_item(s.drop_last(), item) {
            Some(i) => Some(i),
            None => if s.last().item == item {
                Some(s.len() - 1)
            } else {
                None
            },
        }
    }
}

/// What `find_item` finds is a place of the list that holds the item; it
/// finds nothing only where no place does.
pub proof fn lemma_find_item(s: Seq<Keyed>, item: usize)
    ensures
        match find_item(s, item) {
            Some(i) => 0 <= i < s.len() && s[i].item == item,
            None => forall|j: int| 0 <= j < s.len() ==> (#[trigger] s[j]).item != item,
        },
    decreases s.len(),
{
    if s.len() > 0 {
        let front = s.drop_last();
        lemma_find_item(front, item);
        match find_item(front, item) {
            Some(i) => {
                assert(s[i] == front[i]);
            },
            None => {
                assert forall|j: int| 0 <= j < s.len() - 1 implies (#[trigger] s[j]).item
                    != item by {
                    assert(s[j] == front[j]);
                }
            },
        }
    }
}

/// Looks up the place of the first entry for `item`.
pub fn position_of(list: &Vec<Keyed>, item: usize) -> (place: Option<usize>)
    ensures
        match place {
            Some(i) => find_item(list@, item) == Some(i as int) && i < list.len(),
            None => find_item(list@, item) is None,
        },
{
    let mut i: usize = 0;
    while i < list.len()
        invariant
            0 <= i <= list.len(),
            find_item(list@.take(i as int), item) is None,
        decreases list.len() - i,
    {
        proof {
            assert(list@.take(i as int + 1).drop_last() =~= list@.take(i as int));
        }
        if list[i].item == item {
            proof {
                lemma_found_item_stays(list@, item, i as int + 1);
            }
            return Some(i);
        }
        i += 1;
    }
    proof {
        assert(list@.take(list.len() as int) =~= list@);
    }
    None
}

/// What `find_item` has found in the first `i` entries it finds in the
/// whole list.
pub proof fn lemma_found_item_stays(s: Seq<Keyed>, item: usize, i: int)
    requires
        0 <= i <= s.len(),
        find_item(s.take(i), item) is Some,
    ensures
        find_item(s, item) == find_item(s.take(i), item),
    decreases s.len() - i,
{
    if i == s.len() {
        assert(s.take(i) =~= s);
    } else {
        assert(s.take(i + 1).drop_last() =~= s.take(i));
        lemma_found_item_stays(s, item, i + 1);
    }
}

/// The end of an edge away from the node whose port is in question: its
/// source for an input port, its target for an output port.
pub open spec fn far_end(edge: EdgeRecord, kind: PortKind) -> usize {
    match kind {
        PortKind::Input => edge.source,
        PortKind::Output => edge.target,
    }
}

/// The edges that come into the node `id`, for `Input`, or go out of it,
/// for `Output`, in the order of the list: each with its place in the list
/// as item and the horizontal middle of the node at its far end as key.
pub open spec fn incident(
    edges: Seq<EdgeRecord>,
    rects: Seq<NodeRect>,
    id: usize,
    kind: PortKind,
) -> Seq<Keyed>
    decreases edges.len(),
{
    if edges.len() == 0 {
        Seq::empty()
    } else {
        let front = incident(edges.drop_last(), rects, id, kind);
        if near_end(edges.last(), kind) == id {
            front.push(
                Keyed {
                    key: center_of(rects, far_end(edges.last(), kind)) as i64,
                    item: (edges.len() - 1) as usize,
                },
            )
        } else {
            front
        }
    }
}

/// The list of the edges at a node has an entry for each of them and for no
/// other edge.
pub proof fn lemma_incident(edges: Seq<EdgeRecord>, rects: Seq<NodeRect>, id: usize, kind: PortKind)
    requires
        edges.len() <= usize::MAX,
    ensures
        incident(edges, rects, id, kind).len() == degree(edges, id, kind),
        forall|k: int|
            0 <= k < incident(edges, rects, id, kind).len() ==> (#[trigger] incident(
                edges,
                rects,
                id,
                kind,
            )[k]).item < edges.len() && near_end(
                edges[incident(edges, rects, id, kind)[k].item as int],
                kind,
            ) == id,
        forall|e: int|
            0 <= e < edges.len() && near_end(#[trigger] edges[e], kind) == id ==> find_item(
                incident(edges, rects, id, kind),
                e as usize,
            ) is Some,
    decreases edges.len(),
{
    if edges.len() > 0 {
        let front_in = edges.drop_last();
        let front = incident(front_in, rects, id, kind);
        let all = incident(edges, rects, id, kind);
        lemma_incident(front_in, rects, id, kind);
        assert forall|k: int| 0 <= k < all.len() implies (#[trigger] all[k]).item < edges.len()
            && near_end(edges[all[k].item as int], kind) == id by {
            if k < front.len() {
                assert(all[k] == front[k]);
                assert(front_in[front[k].item as int] == edges[front[k].item as int]);
            }
        }
        assert forall|e: int|
            0 <= e < edges.len() && near_end(#[trigger] edges[e], kind) == id implies find_item(
            all,
            e as usize,
        ) is Some by {
            if e < edges.len() - 1 {
                assert(front_in[e] == edges[e]);
                assert(find_item(front, e as usize) is Some);
                if near_end(edges.last(), kind) == id {
                    assert(all.drop_last() =~= front);
                }
            } else {
                assert(all.drop_last() =~= front);
            }
        }
    }
}

/// Lists the edges that come into the node `id`, for `Input`, or go out of
/// it, for `Output`.
pub fn edges_at(s: &GraphSnapshot, rects: &Vec<NodeRect>, id: usize, kind: PortKind) -> (list: Vec<
    Keyed,
>)
    requires
        rects_wf(rects@),
    ensures
        list@ == incident(s.edges@, rects@, id, kind),
{
    let mut list: Vec<Keyed> = Vec::new();
    let mut e: usize = 0;
    while e < s.edges.len()
        invariant
            0 <= e <= s.edges.len(),
            rects_wf(rects@),
            list@ == incident(s.edges@.take(e as int), rects@, id, kind),
        decreases s.edges.len() - e,
    {
        proof {
            assert(s.edges@.take(e as int + 1).drop_last() =~= s.edges@.take(e as int));
        }
        let edge: EdgeRecord = s.edges[e];
        let (near, far): (usize, usize) = match kind {
            PortKind::Input => (edge.target, edge.source),
            PortKind::Output => (edge.source, edge.target),
        };
        if near == id {
            list.push(Keyed { key: center_x_of(rects, far), item: e });
        }
        e += 1;
    }
    proof {
        assert(s.edges@.take(s.edges.len() as int) =~= s.edges@);
    }
    list
}

/// The ports of kind `kind` of the node `node`, in the order of the list:
/// each with its place in the list as item and its horizontal position as
/// key.
pub open spec fn ports_at(ports: Seq<PortPosition>, node: usize, kind: PortKind) -> Seq<Keyed>
    decreases ports.len(),
{
    if ports.len() == 0 {
        Seq::empty()
    } else {
        let front = ports_at(ports.drop_last(), node, kind);
        if ports.last().slot.node == node && ports.last().slot.kind == kind {
            front.push(Keyed { key: ports.last().pos.x, item: (ports.len() - 1) as usize })
        } else {
            front
        }
    }
}

/// Every entry of the list of the ports of a node stands for a port on that
/// node and kind.
pub proof fn lemma_ports_at(ports: Seq<PortPosition>, node: usize, kind: PortKind)
    requires
        ports.len() <= usize::MAX,
    ensures
        forall|k: int|
            0 <= k < ports_at(ports, node, kind).len() ==> (#[trigger] ports_at(
                ports,
                node,
                kind,
            )[k]).item < ports.len() && ports[ports_at(ports, node, kind)[k].item as int].slot.node
                == node && ports[ports_at(ports, node, kind)[k].item as int].slot.kind == kind,
    decreases ports.len(),
{
    if ports.len() > 0 {
        let front_in = ports.drop_last();
        let front = ports_at(front_in, node, kind);
        let all = ports_at(ports, node, kind);
        lemma_ports_at(front_in, node, kind);
        assert forall|k: int| 0 <= k < all.len() implies (#[trigger] all[k]).item < ports.len()
            && ports[all[k].item as int].slot.node == node && ports[all[k].item as int].slot.kind
            == kind by {
            if k < front.len() {
                assert(all[k] == front[k]);
                assert(front_in[front[k].item as int] == ports[front[k].item as int]);
            }
        }
    }
}

/// Lists the ports of kind `kind` of the node `node`.
pub fn ports_of(ports: &Vec<PortPosition>, node: usize, kind: PortKind) -> (list: Vec<Keyed>)
    ensures
        list@ == ports_at(ports@, node, kind),
{
    let mut list: Vec<Keyed> = Vec::new();
    let mut i: usize = 0;
    while i < ports.len()
        invariant
            0 <= i <= ports.len(),
            list@ == ports_at(ports@.take(i as int), node, kind),
        decreases ports.len() - i,
    {
        proof {
            assert(ports@.take(i as int + 1).drop_last() =~= ports@.take(i as int));
        }
        if ports[i].slot.node == node && ports[i].slot.kind == kind {
            list.push(Keyed { key: ports[i].pos.x, item: i });
        }
        i += 1;
    }
    proof {
        assert(ports@.take(ports.len() as int) =~= ports@);
    }
    list
}

/// The ports of kind `kind` of the node `node` from left to right.
pub open spec fn ports_in_order(ports: Seq<PortPosition>, node: usize, kind: PortKind) -> Seq<
    Keyed,
> {
    sorted_by_key(ports_at(ports, node, kind))
}

/// The edges at the node `id` in the order of the horizontal middles of the
/// nodes at their far ends.
pub open spec fn edges_in_order(
    s: GraphSnapshot,
    rects: Seq<NodeRect>,
    id: usize,
    kind: PortKind,
) -> Seq<Keyed> {
    sorted_by_key(incident(s.edges@, rects, id, kind))
}

/// The line of the edge that takes output port `n` of the node `id`, where
/// both its ports exist.
pub open spec fn line_at(
    s: GraphSnapshot,
    rects: Seq<NodeRect>,
    ports: Seq<PortPosition>,
    id: usize,
    n: int,
) -> Option<PortLine> {
    let froms = ports_in_order(ports, id, PortKind::Output);
    let outs = edges_in_order(s, rects, id, PortKind::Output);
    if n >= froms.len() {
        None
    } else {
        let e = outs[n].item;
        let target = s.edges@[e as int].target;
        let tos = ports_in_order(ports, target, PortKind::Input);
        let ins = edges_in_order(s, rects, target, PortKind::Input);
        let at = match find_item(ins, e) {
            Some(i) => i,
            None => 0,
        };
        if at >= tos.len() {
            None
        } else {
            Some(
                PortLine { from: ports[froms[n].item as int].slot, to: ports[tos[at].item as int].slot },
            )
        }
    }
}

/// The lines of the first `n` edges that leave the node `id`, in the order
/// of the edges.
pub open spec fn node_lines(
    s: GraphSnapshot,
    rects: Seq<NodeRect>,
    ports: Seq<PortPosition>,
    id: usize,
    n: nat,
) -> Seq<PortLine>
    decreases n,
{
    if n == 0 {
        Seq::empty()
    } else {
        let front = node_lines(s, rects, ports, id, (n - 1) as nat);
        match line_at(s, rects, ports, id, n - 1) {
            Some(line) => front.push(line),
            None => front,
        }
    }
}

/// The lines of all edges that leave the node `id`.
pub open spec fn lines_of(
    s: GraphSnapshot,
    rects: Seq<NodeRect>,
    ports: Seq<PortPosition>,
    id: usize,
) -> Seq<PortLine> {
    node_lines(s, rects, ports, id, edges_in_order(s, rects, id, PortKind::Output).len())
}

/// The lines of the edges that leave the first `i` nodes, node after node.
pub open spec fn lines_upto(
    s: GraphSnapshot,
    rects: Seq<NodeRect>,
    ports: Seq<PortPosition>,
    i: nat,
) -> Seq<PortLine>
    decreases i,
{
    if i == 0 {
        Seq::empty()
    } else {
        lines_upto(s, rects, ports, (i - 1) as nat) + lines_of(s, rects, ports, s.nodes@[i - 1].id)
    }
}

/// Every line starts at an output port and ends at an input port in the
/// list.
pub open spec fn lines_positioned(lines: Seq<PortLine>, ports: Seq<PortPosition>) -> bool {
    forall|k: int|
        0 <= k < lines.len() ==> exists|a: int, b: int|
            0 <= a < ports.len() && 0 <= b < ports.len() && ports[a].slot == (
            #[trigger] lines[k]).from && ports[b].slot == lines[k].to && ports[a].slot.kind
                == PortKind::Output && ports[b].slot.kind == PortKind::Input
}

/// The line joins the ends of an edge: it starts at an output port on the
/// source of the edge and ends at an input port on its target.
pub open spec fn joins_edge(s: GraphSnapshot, line: PortLine) -> bool {
    exists|e: int|
        0 <= e < s.edges@.len() && (#[trigger] s.edges@[e]).source == line.from.node
            && s.edges@[e].target == line.to.node && line.from.kind == PortKind::Output
            && line.to.kind == PortKind::Input
}

/// Every line joins the ends of an edge.
pub open spec fn lines_follow_edges(lines: Seq<PortLine>, s: GraphSnapshot) -> bool {
    forall|k: int| 0 <= k < lines.len() ==> joins_edge(s, #[trigger] lines[k])
}

/// Finds the line of the edge that takes output port `n` of the node `id`.
fn pair_ports(
    s: &GraphSnapshot,
    rects: &Vec<NodeRect>,
    ports: &Vec<PortPosition>,
    id: usize,
    froms: &Vec<Keyed>,
    outs: &Vec<Keyed>,
    n: usize,
) -> (line: Option<PortLine>)
    requires
        rects_wf(rects@),
        froms@ == ports_in_order(ports@, id, PortKind::Output),
        outs@ == edges_in_order(*s, rects@, id, PortKind::Output),
        n < outs.len(),
    ensures
        line == line_at(*s, rects@, ports@, id, n as int),
        match line {
            Some(l) => joins_edge(*s, l) && l.from.node == id && exists|a: int, b: int|
                0 <= a < ports.len() && 0 <= b < ports.len() && ports@[a].slot == l.from
                    && ports@[b].slot == l.to && ports@[a].slot.kind == PortKind::Output
                    && ports@[b].slot.kind == PortKind::Input,
            None => true,
        },
{
    if n >= froms.len() {
        return None;
    }
    proof {
        assert(s.edges@.len() == s.edges.len());
        assert(ports@.len() == ports.len());
        lemma_incident(s.edges@, rects@, id, PortKind::Output);
        lemma_sorted_by_key(incident(s.edges@, rects@, id, PortKind::Output));
        lemma_ports_at(ports@, id, PortKind::Output);
        lemma_sorted_by_key(ports_at(ports@, id, PortKind::Output));
        let raw = incident(s.edges@, rects@, id, PortKind::Output);
        assert(raw.contains(outs@[n as int]));
        let w = choose|w: int| 0 <= w < raw.len() && raw[w] == outs@[n as int];
        assert(raw[w].item < s.edges.len());
        let rawp = ports_at(ports@, id, PortKind::Output);
        assert(rawp.contains(froms@[n as int]));
        let wp = choose|wp: int| 0 <= wp < rawp.len() && rawp[wp] == froms@[n as int];
        assert(rawp[wp].item < ports.len());
    }
    let e: usize = outs[n].item;
    let target: usize = s.edges[e].target;
    let tos: Vec<Keyed> = sort_by_key(&ports_of(ports, target, PortKind::Input));
    let ins: Vec<Keyed> = sort_by_key(&edges_at(s, rects, target, PortKind::Input));
    let at: usize = match position_of(&ins, e) {
        Some(i) => i,
        None => 0,
    };
    if at >= tos.len() {
        return None;
    }
    proof {
        lemma_ports_at(ports@, target, PortKind::Input);
        lemma_sorted_by_key(ports_at(ports@, target, PortKind::Input));
        let rawt = ports_at(ports@, target, PortKind::Input);
        assert(rawt.contains(tos@[at as int]));
        let wt = choose|wt: int| 0 <= wt < rawt.len() && rawt[wt] == tos@[at as int];
        assert(rawt[wt].item < ports.len());
    }
    let from: PortPosition = ports[froms[n].item];
    let to: PortPosition = ports[tos[at].item];
    proof {
        assert(ports@[froms@[n as int].item as int].slot == from.slot);
        assert(ports@[tos@[at as int].item as int].slot == to.slot);
        assert(s.edges@[e as int].source == id);
        assert(from.slot.node == id && from.slot.kind == PortKind::Output);
        assert(to.slot.node == target && to.slot.kind == PortKind::Input);
        assert(joins_edge(*s, PortLine { from: from.slot, to: to.slot }));
    }
    Some(PortLine { from: from.slot, to: to.slot })
}

/// Pairs, node after node, the output ports of the node with the input
/// ports of the nodes that its edges lead to. An edge for which a port is
/// missing gets no line.
pub fn assign_port_lines(s: &GraphSnapshot, rects: &Vec<NodeRect>, ports: &Vec<PortPosition>) -> (lines:
    Vec<PortLine>)
    requires
        rects_wf(rects@),
    ensures
        lines@ == lines_upto(*s, rects@, ports@, s.nodes@.len()),
        lines_positioned(lines@, ports@),
        lines_follow_edges(lines@, *s),
{
    let mut lines: Vec<PortLine> = Vec::new();
    let mut i: usize = 0;
    while i < s.nodes.len()
        invariant
            0 <= i <= s.nodes.len(),
            rects_wf(rects@),
            lines@ == lines_upto(*s, rects@, ports@, i as nat),
            lines_positioned(lines@, ports@),
            lines_follow_edges(lines@, *s),
        decreases s.nodes.len() - i,
    {
        let id: usize = s.nodes[i].id;
        let froms: Vec<Keyed> = sort_by_key(&ports_of(ports, id, PortKind::Output));
        let outs: Vec<Keyed> = sort_by_key(&edges_at(s, rects, id, PortKind::Output));
        let ghost start = lines@;
        let mut n: usize = 0;
        while n < outs.len()
            invariant
                0 <= n <= outs.len(),
                rects_wf(rects@),
                froms@ == ports_in_order(ports@, id, PortKind::Output),
                outs@ == edges_in_order(*s, rects@, id, PortKind::Output),
                lines@ == start + node_lines(*s, rects@, ports@, id, n as nat),
                lines_positioned(lines@, ports@),
                lines_follow_edges(lines@, *s),
            decreases outs.len() - n,
        {
            match pair_ports(s, rects, ports, id, &froms, &outs, n) {
                Some(line) => {
                    let ghost before = lines@;
                    lines.push(line);
                    proof {
                        assert(lines@ =~= start + node_lines(*s, rects@, ports@, id, (n + 1) as nat));
                        assert forall|k: int| 0 <= k < lines@.len() implies exists|a: int, b: int|
                            0 <= a < ports@.len() && 0 <= b < ports@.len() && ports@[a].slot == (
                            #[trigger] lines@[k]).from && ports@[b].slot == lines@[k].to
                                && ports@[a].slot.kind == PortKind::Output && ports@[b].slot.kind
                                == PortKind::Input by {
                            if k < before.len() {
                                assert(lines@[k] == before[k]);
                            }
                        }
                        assert forall|k: int| 0 <= k < lines@.len() implies joins_edge(
                            *s,
                            #[trigger] lines@[k],
                        ) by {
                            if k < before.len() {
                                assert(lines@[k] == before[k]);
                            }
                        }
                    }
                },
                None => {},
            }
            n += 1;
        }
        i += 1;
    }
    lines
}

/// The node `id` has as many ports of each kind as it has edges of that
/// kind.
pub open spec fn ports_fit_node(s: GraphSnapshot, ports: Seq<PortPosition>, id: usize) -> bool {
    &&& ports_at(ports, id, PortKind::Input).len() == degree(s.edges@, id, PortKind::Input)
    &&& ports_at(ports, id, PortKind::Output).len() == degree(s.edges@, id, PortKind::Output)
}

/// Every node has as many ports of each kind as it has edges of that kind.
pub open spec fn ports_fit(s: GraphSnapshot, ports: Seq<PortPosition>) -> bool {
    forall|i: int| 0 <= i < s.nodes.len() ==> ports_fit_node(s, ports, (#[trigger] s.nodes@[i]).id)
}

/// `id` is the identifier of a node of the list.
pub open spec fn is_node(nodes: Seq<crate::graph::NodeRecord>, id: usize) -> bool {
    exists|i: int| 0 <= i < nodes.len() && (#[trigger] nodes[i]).id == id
}

/// No two nodes have the same identifier, and both ends of every edge are
/// nodes.
pub open spec fn closed_graph(s: GraphSnapshot) -> bool {
    &&& forall|i: int, j: int|
        0 <= i < j < s.nodes.len() ==> (#[trigger] s.nodes@[i]).id != (#[trigger] s.nodes@[j]).id
    &&& forall|e: int|
        0 <= e < s.edges.len() ==> is_node(s.nodes@, (#[trigger] s.edges@[e]).source) && is_node(
            s.nodes@,
            s.edges@[e].target,
        )
}

/// Where every node has as many ports as edges, the edge that takes output
/// port `n` of a node gets a line.
pub proof fn lemma_line_exists(
    s: GraphSnapshot,
    rects: Seq<NodeRect>,
    ports: Seq<PortPosition>,
    id: usize,
    n: int,
)
    requires
        ports_fit(s, ports),
        closed_graph(s),
        is_node(s.nodes@, id),
        0 <= n < degree(s.edges@, id, PortKind::Output),
    ensures
        line_at(s, rects, ports, id, n) is Some,
{
    let edges = s.edges@;
    assert(edges.len() == s.edges.len());
    let raw_out = incident(edges, rects, id, PortKind::Output);
    let outs = sorted_by_key(raw_out);
    let froms = ports_in_order(ports, id, PortKind::Output);
    lemma_incident(edges, rects, id, PortKind::Output);
    lemma_sorted_by_key(raw_out);
    lemma_sorted_by_key(ports_at(ports, id, PortKind::Output));
    let i = choose|i: int| 0 <= i < s.nodes.len() && (#[trigger] s.nodes@[i]).id == id;
    assert(ports_fit_node(s, ports, s.nodes@[i].id));
    assert(froms.len() == outs.len());
    assert(raw_out.contains(outs[n]));
    let w = choose|w: int| 0 <= w < raw_out.len() && raw_out[w] == outs[n];
    assert(raw_out[w].item < edges.len());
    let e = outs[n].item;
    let target = edges[e as int].target;
    assert(is_node(s.nodes@, target));
    let j = choose|j: int| 0 <= j < s.nodes.len() && (#[trigger] s.nodes@[j]).id == target;
    assert(ports_fit_node(s, ports, s.nodes@[j].id));
    let raw_in = incident(edges, rects, target, PortKind::Input);
    let ins = sorted_by_key(raw_in);
    let tos = ports_in_order(ports, target, PortKind::Input);
    lemma_incident(edges, rects, target, PortKind::Input);
    lemma_sorted_by_key(raw_in);
    lemma_sorted_by_key(ports_at(ports, target, PortKind::Input));
    assert(near_end(edges[e as int], PortKind::Input) == target);
    assert(find_item(raw_in, e) is Some);
    lemma_find_item(raw_in, e);
    let v = find_item(raw_in, e)->0;
    assert(ins.contains(raw_in[v]));
    let k = choose|k: int| 0 <= k < ins.len() && ins[k] == raw_in[v];
    assert(ins[k].item == e);
    lemma_find_item(ins, e);
    assert(find_item(ins, e) is Some);
    assert(tos.len() == ins.len());
}

/// Where every node has as many ports as edges, each of the first `n` edges
/// that leave a node has a line.
pub proof fn lemma_node_lines_len(
    s: GraphSnapshot,
    rects: Seq<NodeRect>,
    ports: Seq<PortPosition>,
    id: usize,
    n: nat,
)
    requires
        ports_fit(s, ports),
        closed_graph(s),
        is_node(s.nodes@, id),
        n <= degree(s.edges@, id, PortKind::Output),
    ensures
        node_lines(s, rects, ports, id, n).len() == n,
    decreases n,
{
    if n > 0 {
        lemma_node_lines_len(s, rects, ports, id, (n - 1) as nat);
        lemma_line_exists(s, rects, ports, id, n - 1);
    }
}

/// The number of nodes among the first `n` with the identifier `id`.
pub open spec fn count_id(nodes: Seq<crate::graph::NodeRecord>, id: usize, n: nat) -> nat
    decreases n,
{
    if n == 0 {
        0
    } else {
        count_id(nodes, id, (n - 1) as nat) + if nodes[n - 1].id == id {
            1nat
        } else {
            0nat
        }
    }
}

/// The edges that leave the first `n` nodes, counted node by node.
pub open spec fn out_degree_sum(
    nodes: Seq<crate::graph::NodeRecord>,
    edges: Seq<EdgeRecord>,
    n: nat,
) -> nat
    decreases n,
{
    if n == 0 {
        0
    } else {
        out_degree_sum(nodes, edges, (n - 1) as nat) + degree(edges, nodes[n - 1].id, PortKind::Output)
    }
}

/// Where no two nodes have the same identifier, exactly one node has the
/// identifier of a node.
pub proof fn lemma_count_id(nodes: Seq<crate::graph::NodeRecord>, id: usize, n: nat)
    requires
        n <= nodes.len(),
        forall|i: int, j: int|
            0 <= i < j < nodes.len() ==> (#[trigger] nodes[i]).id != (#[trigger] nodes[j]).id,
    ensures
        (exists|i: int| 0 <= i < n && (#[trigger] nodes[i]).id == id) ==> count_id(nodes, id, n)
            == 1,
        !(exists|i: int| 0 <= i < n && (#[trigger] nodes[i]).id == id) ==> count_id(nodes, id, n)
            == 0,
    decreases n,
{
    if n > 0 {
        lemma_count_id(nodes, id, (n - 1) as nat);
        if nodes[n - 1].id == id {
            if exists|i: int| 0 <= i < n - 1 && (#[trigger] nodes[i]).id == id {
                let i = choose|i: int| 0 <= i < n - 1 && (#[trigger] nodes[i]).id == id;
                assert(nodes[i].id != nodes[n - 1].id);
            }
        } else {
            if exists|i: int| 0 <= i < n && (#[trigger] nodes[i]).id == id {
                let i = choose|i: int| 0 <= i < n && (#[trigger] nodes[i]).id == id;
                assert(i < n - 1);
            }
        }
    }
}

/// One more edge adds to the count, node by node, once for every node that
/// it leaves.
pub proof fn lemma_out_degree_step(
    nodes: Seq<crate::graph::NodeRecord>,
    edges: Seq<EdgeRecord>,
    n: nat,
)
    requires
        edges.len() > 0,
        n <= nodes.len(),
    ensures
        out_degree_sum(nodes, edges, n) == out_degree_sum(nodes, edges.drop_last(), n) + count_id(
            nodes,
            edges.last().source,
            n,
        ),
    decreases n,
{
    if n > 0 {
        lemma_out_degree_step(nodes, edges, (n - 1) as nat);
    }
}

/// Where no two nodes have the same identifier and every edge leaves a
/// node, the edges counted node by node are all the edges.
pub proof fn lemma_out_degree_sum(nodes: Seq<crate::graph::NodeRecord>, edges: Seq<EdgeRecord>)
    requires
        forall|i: int, j: int|
            0 <= i < j < nodes.len() ==> (#[trigger] nodes[i]).id != (#[trigger] nodes[j]).id,
        forall|e: int| 0 <= e < edges.len() ==> is_node(nodes, (#[trigger] edges[e]).source),
    ensures
        out_degree_sum(nodes, edges, nodes.len()) == edges.len(),
    decreases edges.len(),
{
    if edges.len() == 0 {
        lemma_out_degree_none(nodes, edges, nodes.len());
    } else {
        let front = edges.drop_last();
        assert forall|e: int| 0 <= e < front.len() implies is_node(
            nodes,
            (#[trigger] front[e]).source,
        ) by {
            assert(front[e] == edges[e]);
        }
        lemma_out_degree_sum(nodes, front);
        lemma_out_degree_step(nodes, edges, nodes.len());
        assert(is_node(nodes, edges[edges.len() - 1].source));
        lemma_count_id(nodes, edges.last().source, nodes.len());
    }
}

/// Without edges no node has an edge.
pub proof fn lemma_out_degree_none(
    nodes: Seq<crate::graph::NodeRecord>,
    edges: Seq<EdgeRecord>,
    n: nat,
)
    requires
        edges.len() == 0,
        n <= nodes.len(),
    ensures
        out_degree_sum(nodes, edges, n) == 0,
    decreases n,
{
    if n > 0 {
        lemma_out_degree_none(nodes, edges, (n - 1) as nat);
    }
}

/// Where every node has as many ports as edges, the first `i` nodes have as
/// many lines as edges leave them.
pub proof fn lemma_lines_upto_len(
    s: GraphSnapshot,
    rects: Seq<NodeRect>,
    ports: Seq<PortPosition>,
    i: nat,
)
    requires
        ports_fit(s, ports),
        closed_graph(s),
        i <= s.nodes.len(),
    ensures
        lines_upto(s, rects, ports, i).len() == out_degree_sum(s.nodes@, s.edges@, i),
    decreases i,
{
    if i > 0 {
        lemma_lines_upto_len(s, rects, ports, (i - 1) as nat);
        let id = s.nodes@[i - 1].id;
        assert(is_node(s.nodes@, id));
        assert(s.edges@.len() == s.edges.len());
        lemma_incident(s.edges@, rects, id, PortKind::Output);
        lemma_sorted_by_key(incident(s.edges@, rects, id, PortKind::Output));
        lemma_node_lines_len(s, rects, ports, id, degree(s.edges@, id, PortKind::Output));
    }
}

/// Where every node has as many ports of each kind as it has edges of that
/// kind, no two nodes have the same identifier and both ends of every edge
/// are nodes, every edge gets a line: there are as many lines as edges.
pub proof fn lemma_matching_total(s: GraphSnapshot, rects: Seq<NodeRect>, ports: Seq<PortPosition>)
    requires
        ports_fit(s, ports),
        closed_graph(s),
    ensures
        lines_upto(s, rects, ports, s.nodes@.len()).len() == s.edges@.len(),
{
    lemma_lines_upto_len(s, rects, ports, s.nodes@.len());
    lemma_out_degree_sum(s.nodes@, s.edges@);
}

/// The ports of a node in two lists one behind the other are as many as in
/// the two lists together.
pub proof fn lemma_ports_at_append(
    a: Seq<PortPosition>,
    b: Seq<PortPosition>,
    node: usize,
    kind: PortKind,
)
    ensures
        ports_at(a + b, node, kind).len() == ports_at(a, node, kind).len() + ports_at(
            b,
            node,
            kind,
        ).len(),
    decreases b.len(),
{
    if b.len() == 0 {
        assert(a + b =~= a);
    } else {
        assert((a + b).drop_last() =~= a + b.drop_last());
        assert((a + b).last() == b.last());
        lemma_ports_at_append(a, b.drop_last(), node, kind);
    }
}

/// A list of ports that all sit on one node and are of one kind holds as
/// many ports of that node and kind as it is long, and none of any other.
pub proof fn lemma_ports_at_uniform(
    list: Seq<PortPosition>,
    owner: usize,
    owned: PortKind,
    node: usize,
    kind: PortKind,
)
    requires
        forall|k: int|
            0 <= k < list.len() ==> (#[trigger] list[k]).slot.node == owner && list[k].slot.kind
                == owned,
    ensures
        ports_at(list, node, kind).len() == (if owner == node && owned == kind {
            list.len()
        } else {
            0
        }),
    decreases list.len(),
{
    if list.len() > 0 {
        let front = list.drop_last();
        assert forall|k: int| 0 <= k < front.len() implies (#[trigger] front[k]).slot.node == owner
            && front[k].slot.kind == owned by {
            assert(front[k] == list[k]);
        }
        lemma_ports_at_uniform(front, owner, owned, node, kind);
        assert(list[list.len() - 1].slot.node == owner);
    }
}

/// Among the ports that the first `n` nodes are given, a node with a
/// rectangle has, for each kind, one port for every edge of that kind, provided
/// that it is one of the `n` and no two nodes have the same identifier.
pub proof fn lemma_allocated_count(
    s: GraphSnapshot,
    rects: Seq<NodeRect>,
    offset: i64,
    n: nat,
    id: usize,
    kind: PortKind,
)
    requires
        n <= s.nodes.len(),
        forall|i: int, j: int|
            0 <= i < j < s.nodes.len() ==> (#[trigger] s.nodes@[i]).id != (#[trigger] s.nodes@[j]).id,
        rect_of(rects, id) is Some,
    ensures
        ports_at(ports_upto(s, rects, offset, n), id, kind).len() == (if exists|i: int|
            0 <= i < n && (#[trigger] s.nodes@[i]).id == id {
            degree(s.edges@, id, kind)
        } else {
            0
        }),
    decreases n,
{
    if n > 0 {
        let front = ports_upto(s, rects, offset, (n - 1) as nat);
        let here = s.nodes@[n - 1].id;
        let added = node_ports(s.edges@, rects, here, offset);
        lemma_allocated_count(s, rects, offset, (n - 1) as nat, id, kind);
        lemma_ports_at_append(front, added, id, kind);
        match rect_of(rects, here) {
            Some(rect) => {
                let ins = border_ports(
                    here,
                    rect,
                    PortKind::Input,
                    degree(s.edges@, here, PortKind::Input),
                    offset,
                );
                let outs = border_ports(
                    here,
                    rect,
                    PortKind::Output,
                    degree(s.edges@, here, PortKind::Output),
                    offset,
                );
                assert(added == ins + outs);
                lemma_ports_at_append(ins, outs, id, kind);
                lemma_ports_at_uniform(ins, here, PortKind::Input, id, kind);
                lemma_ports_at_uniform(outs, here, PortKind::Output, id, kind);
            },
            None => {
                assert(added.len() == 0);
            },
        }
        if here == id {
            if exists|i: int| 0 <= i < n - 1 && (#[trigger] s.nodes@[i]).id == id {
                let i = choose|i: int| 0 <= i < n - 1 && (#[trigger] s.nodes@[i]).id == id;
                assert(s.nodes@[i].id != s.nodes@[n - 1].id);
            }
            assert(s.nodes@[n - 1].id == id);
        } else {
            if exists|i: int| 0 <= i < n && (#[trigger] s.nodes@[i]).id == id {
                let i = choose|i: int| 0 <= i < n && (#[trigger] s.nodes@[i]).id == id;
                assert(i < n - 1);
            }
        }
    }
}

/// Where no two nodes have the same identifier and every node has a
/// rectangle, the ports that the nodes are given fit: every node has as
/// many ports of each kind as it has edges of that kind.
pub proof fn lemma_allocated_ports_fit(s: GraphSnapshot, rects: Seq<NodeRect>, offset: i64)
    requires
        forall|i: int, j: int|
            0 <= i < j < s.nodes.len() ==> (#[trigger] s.nodes@[i]).id != (#[trigger] s.nodes@[j]).id,
        forall|i: int| 0 <= i < s.nodes.len() ==> rect_of(rects, (#[trigger] s.nodes@[i]).id) is Some,
    ensures
        ports_fit(s, ports_upto(s, rects, offset, s.nodes@.len())),
{
    let ports = ports_upto(s, rects, offset, s.nodes@.len());
    assert forall|i: int| 0 <= i < s.nodes.len() implies ports_fit_node(
        s,
        ports,
        (#[trigger] s.nodes@[i]).id,
    ) by {
        lemma_allocated_count(s, rects, offset, s.nodes@.len(), s.nodes@[i].id, PortKind::Input);
        lemma_allocated_count(s, rects, offset, s.nodes@.len(), s.nodes@[i].id, PortKind::Output);
    }
}

/// Where no two nodes have the same identifier, every node has a rectangle
/// and both ends of every edge are nodes, pairing the ports that the nodes
/// were given yields a line for every edge.
pub proof fn lemma_every_edge_gets_a_line(s: GraphSnapshot, rects: Seq<NodeRect>, offset: i64)
    requires
        closed_graph(s),
        forall|i: int| 0 <= i < s.nodes.len() ==> rect_of(rects, (#[trigger] s.nodes@[i]).id) is Some,
    ensures
        lines_upto(
            s,
            rects,
            ports_upto(s, rects, offset, s.nodes@.len()),
            s.nodes@.len(),
        ).len() == s.edges@.len(),
{
    lemma_allocated_ports_fit(s, rects, offset);
    lemma_matching_total(s, rects, ports_upto(s, rects, offset, s.nodes@.len()));
}

/// The line of the edge that takes output port `n` of a node joins the ends
/// of that edge: it starts at an output port on the node, which is the
/// source of the edge, and ends at an input port on the target of the edge.
pub proof fn lemma_line_joins_its_edge(
    s: GraphSnapshot,
    rects: Seq<NodeRect>,
    ports: Seq<PortPosition>,
    id: usize,
    n: int,
)
    requires
        ports.len() <= usize::MAX,
        0 <= n < edges_in_order(s, rects, id, PortKind::Output).len(),
        line_at(s, rects, ports, id, n) is Some,
    ensures
        edges_in_order(s, rects, id, PortKind::Output)[n].item < s.edges@.len(),
        s.edges@[edges_in_order(s, rects, id, PortKind::Output)[n].item as int].source == id,
        line_at(s, rects, ports, id, n)->0.from.node == id,
        line_at(s, rects, ports, id, n)->0.from.kind == PortKind::Output,
        line_at(s, rects, ports, id, n)->0.to.node == s.edges@[edges_in_order(
            s,
            rects,
            id,
            PortKind::Output,
        )[n].item as int].target,
        line_at(s, rects, ports, id, n)->0.to.kind == PortKind::Input,
{
    assert(s.edges@.len() == s.edges.len());
    let raw = incident(s.edges@, rects, id, PortKind::Output);
    let outs = sorted_by_key(raw);
    let rawp = ports_at(ports, id, PortKind::Output);
    let froms = sorted_by_key(rawp);
    lemma_incident(s.edges@, rects, id, PortKind::Output);
    lemma_sorted_by_key(raw);
    lemma_ports_at(ports, id, PortKind::Output);
    lemma_sorted_by_key(rawp);
    assert(raw.contains(outs[n]));
    let w = choose|w: int| 0 <= w < raw.len() && raw[w] == outs[n];
    assert(raw[w].item < s.edges@.len());
    assert(rawp.contains(froms[n]));
    let wp = choose|wp: int| 0 <= wp < rawp.len() && rawp[wp] == froms[n];
    assert(rawp[wp].item < ports.len());
    let e = outs[n].item;
    let target = s.edges@[e as int].target;
    let rawt = ports_at(ports, target, PortKind::Input);
    let tos = sorted_by_key(rawt);
    let ins = edges_in_order(s, rects, target, PortKind::Input);
    lemma_ports_at(ports, target, PortKind::Input);
    lemma_sorted_by_key(rawt);
    let at = match find_item(ins, e) {
        Some(i) => i,
        None => 0,
    };
    lemma_find_item(ins, e);
    assert(rawt.contains(tos[at]));
    let wt = choose|wt: int| 0 <= wt < rawt.len() && rawt[wt] == tos[at];
    assert(rawt[wt].item < ports.len());
}

} // verus!
