//! The ports of the nodes: where on the border of a node the lines of its
//! edges begin and end.
//!
//! A node has one input port on its top border for every edge that comes
//! in, and one output port on its bottom border for every edge that goes
//! out. The ports of a border are spread evenly along it and moved off the
//! border by a small offset.

use crate::geom::{Point, Rect, WORLD_LIMIT};
use crate::graph::{EdgeRecord, GraphSnapshot};
use crate::types::{PortKind, PortSlot};
use vstd::prelude::*;

verus! {

/// How far a port lies off the border of its node where the caller has no
/// other wish.
pub const PORT_OFFSET: i64 = 4;

/// The rectangle at which a node has been placed.
#[derive(Clone, Copy, Debug)]
pub struct NodeRect {
    pub node: usize,
    pub rect: Rect,
}

/// A port and where it lies.
#[derive(Clone, Copy, Debug)]
pub struct PortPosition {
    pub slot: PortSlot,
    pub pos: Point,
}

/// The horizontal place of port `k` of `count` along a border that starts
/// at `left` and is `width` long: the fraction `(k + 1) / (count + 1)` of
/// the way, rounded down.
pub open spec fn port_x(left: int, width: int, k: int, count: int) -> int {
    left + width * (k + 1) / (count + 1)
}

/// The position of port `k` of `count` on the border of `rect` that ports of
/// kind `kind` sit on: the top for input ports, the bottom for output ports.
pub open spec fn port_on_rect(rect: Rect, kind: PortKind, k: int, count: int) -> Point {
    Point {
        x: port_x(rect.min.x as int, rect.spec_width(), k, count) as i64,
        y: match kind {
            PortKind::Input => rect.min.y,
            PortKind::Output => rect.max.y,
        },
    }
}

/// The ports of a border lie on it, none left of the one before; where the
/// border is longer than the ports are many, each lies right of the one
/// before.
pub proof fn lemma_port_x_ascends(left: int, width: int, k: int, count: int)
    requires
        0 <= width,
        0 <= k < count,
    ensures
        left <= port_x(left, width, k, count) <= left + width,
        k + 1 < count ==> port_x(left, width, k, count) <= port_x(left, width, k + 1, count),
        k + 1 < count && width > count ==> port_x(left, width, k, count) < port_x(
            left,
            width,
            k + 1,
            count,
        ),
{
    let d = count + 1;
    let a = width * (k + 1);
    let b = width * (k + 2);
    assert(0 <= a <= width * d) by (nonlinear_arith)
        requires
            0 <= width,
            0 <= k + 1 <= d,
            a == width * (k + 1),
    ;
    assert(b == a + width) by (nonlinear_arith)
        requires
            a == width * (k + 1),
            b == width * (k + 2),
    ;
    vstd::arithmetic::div_mod::lemma_fundamental_div_mod(a, d);
    vstd::arithmetic::div_mod::lemma_mod_bound(a, d);
    vstd::arithmetic::div_mod::lemma_fundamental_div_mod(b, d);
    vstd::arithmetic::div_mod::lemma_mod_bound(b, d);
    let qa = a / d;
    let qb = b / d;
    assert(0 <= qa <= width) by (nonlinear_arith)
        requires
            a == d * qa + a % d,
            0 <= a % d < d,
            0 <= a <= width * d,
            d > 0,
    ;
    assert(qa <= qb) by (nonlinear_arith)
        requires
            a == d * qa + a % d,
            b == d * qb + b % d,
            0 <= a % d < d,
            0 <= b % d < d,
            a <= b,
            d > 0,
    ;
    if width > count {
        assert(qa < qb) by (nonlinear_arith)
            requires
                a == d * qa + a % d,
                b == d * qb + b % d,
                0 <= a % d < d,
                0 <= b % d < d,
                b >= a + d,
                d > 0,
        ;
    }
    assert(width * (k + 1 + 1) == b);
}

/// Spreads `count` ports along the top border of `rect` for input ports, or
/// along its bottom border for output ports.
pub fn layout_ports_on_rect(rect: Rect, kind: PortKind, count: usize) -> (positions: Vec<Point>)
    requires
        rect.wf(),
    ensures
        positions.len() == count,
        forall|k: int|
            0 <= k < count ==> #[trigger] positions@[k] == port_on_rect(
                rect,
                kind,
                k,
                count as int,
            ),
        forall|k: int|
            0 <= k < count ==> rect.min.x <= (#[trigger] positions@[k]).x <= rect.max.x,
        forall|i: int, j: int|
            0 <= i < j < count ==> (#[trigger] positions@[i]).x <= (#[trigger] positions@[j]).x,
        rect.spec_width() > count ==> forall|i: int, j: int|
            0 <= i < j < count ==> (#[trigger] positions@[i]).x < (#[trigger] positions@[j]).x,
{
    let y: i64 = match kind {
        PortKind::Input => rect.min.y,
        PortKind::Output => rect.max.y,
    };
    let width: i128 = rect.width() as i128;
    let parts: i128 = count as i128 + 1;
    let mut positions: Vec<Point> = Vec::new();
    let mut k: usize = 0;
    while k < count
        invariant
            0 <= k <= count,
            rect.wf(),
            width == rect.spec_width(),
            parts == count + 1,
            y == (match kind {
                PortKind::Input => rect.min.y,
                PortKind::Output => rect.max.y,
            }),
            positions.len() == k,
            forall|i: int|
                0 <= i < k ==> #[trigger] positions@[i] == port_on_rect(rect, kind, i, count as int),
            forall|i: int| 0 <= i < k ==> rect.min.x <= (#[trigger] positions@[i]).x <= rect.max.x,
        decreases count - k,
    {
        proof {
            lemma_port_x_ascends(rect.min.x as int, rect.spec_width(), k as int, count as int);
            assert(0 <= width * (k + 1) <= 0x200_0000_0000 * 0x1_0000_0000_0000_0000)
                by (nonlinear_arith)
                requires
                    0 <= width <= 0x200_0000_0000,
                    0 <= k + 1 <= 0x1_0000_0000_0000_0000,
            ;
        }
        let along: i128 = width * (k as i128 + 1) / parts;
        let x: i64 = (rect.min.x as i128 + along) as i64;
        positions.push(Point { x, y });
        k += 1;
    }
    proof {
        assert forall|i: int, j: int| 0 <= i < j < count implies (#[trigger] positions@[i]).x <= (
        #[trigger] positions@[j]).x && (rect.spec_width() > count ==> positions@[i].x
            < positions@[j].x) by {
            lemma_ports_in_order(rect.min.x as int, rect.spec_width(), i, j, count as int);
            assert(positions@[i] == port_on_rect(rect, kind, i, count as int));
            assert(positions@[j] == port_on_rect(rect, kind, j, count as int));
            lemma_port_x_ascends(rect.min.x as int, rect.spec_width(), i, count as int);
            lemma_port_x_ascends(rect.min.x as int, rect.spec_width(), j, count as int);
        }
    }
    positions
}

/// Of two ports of a border the one with the lower number does not lie
/// right of the other; where the border is longer than the ports are many,
/// it lies left of it.
pub proof fn lemma_ports_in_order(left: int, width: int, i: int, j: int, count: int)
    requires
        0 <= width,
        0 <= i < j < count,
    ensures
        port_x(left, width, i, count) <= port_x(left, width, j, count),
        width > count ==> port_x(left, width, i, count) < port_x(left, width, j, count),
    decreases j - i,
{
    lemma_port_x_ascends(left, width, i, count);
    if i + 1 < j {
        lemma_ports_in_order(left, width, i + 1, j, count);
    }
}

/// The rectangle of the first entry for the node `id`.
pub open spec fn rect_of(rects: Seq<NodeRect>, id: usize) -> Option<Rect>
    decreases rects.len(),
{
    if rects.len() == 0 {
        None
    } else {
        match rect_of(rects.drop_last(), id) {
            Some(r) => Some(r),
            None => if rects.last().node == id {
                Some(rects.last().rect)
            } else {
                None
            },
        }
    }
}

/// What `rect_of` finds for a longer list is what it finds for the list
/// before, or the rectangle of the added entry where that found nothing.
pub proof fn lemma_rect_of_take(rects: Seq<NodeRect>, id: usize, i: int)
    requires
        0 <= i < rects.len(),
    ensures
        rect_of(rects.take(i + 1), id) == (match rect_of(rects.take(i), id) {
            Some(r) => Some(r),
            None => if rects[i].node == id {
                Some(rects[i].rect)
            } else {
                None
            },
        }),
{
    assert(rects.take(i + 1).drop_last() =~= rects.take(i));
}

/// Looks up the rectangle at which the node `id` has been placed.
pub fn find_rect(rects: &Vec<NodeRect>, id: usize) -> (r: Option<Rect>)
    ensures
        r == rect_of(rects@, id),
{
    let mut i: usize = 0;
    while i < rects.len()
        invariant
            0 <= i <= rects.len(),
            rect_of(rects@.take(i as int), id) is None,
        decreases rects.len() - i,
    {
        proof {
            lemma_rect_of_take(rects@, id, i as int);
        }
        if rects[i].node == id {
            proof {
                lemma_rect_found_stays(rects@, id, i as int + 1);
            }
            return Some(rects[i].rect);
        }
        i += 1;
    }
    proof {
        assert(rects@.take(rects.len() as int) =~= rects@);
    }
    None
}

/// What `rect_of` has found in the first `i` entries it finds in the whole
/// list.
pub proof fn lemma_rect_found_stays(rects: Seq<NodeRect>, id: usize, i: int)
    requires
        0 <= i <= rects.len(),
        rect_of(rects.take(i), id) is Some,
    ensures
        rect_of(rects, id) == rect_of(rects.take(i), id),
    decreases rects.len() - i,
{
    if i == rects.len() {
        assert(rects.take(i) =~= rects);
    } else {
        lemma_rect_of_take(rects, id, i);
        lemma_rect_found_stays(rects, id, i + 1);
    }
}

/// The horizontal middle of the rectangle of the node `id`; 0 for a node
/// without a rectangle.
pub open spec fn center_of(rects: Seq<NodeRect>, id: usize) -> int {
    match rect_of(rects, id) {
        Some(r) => r.spec_center_x(),
        None => 0,
    }
}

/// Every rectangle of the list is well formed.
pub open spec fn rects_wf(rects: Seq<NodeRect>) -> bool {
    forall|i: int| 0 <= i < rects.len() ==> (#[trigger] rects[i]).rect.wf()
}

/// A rectangle that `rect_of` finds in a list of well-formed rectangles is
/// well formed.
pub proof fn lemma_rect_of_wf(rects: Seq<NodeRect>, id: usize)
    requires
        rects_wf(rects),
    ensures
        rect_of(rects, id) is Some ==> rect_of(rects, id)->0.wf(),
    decreases rects.len(),
{
    if rects.len() > 0 {
        assert forall|i: int| 0 <= i < rects.drop_last().len() implies (
        #[trigger] rects.drop_last()[i]).rect.wf() by {
            assert(rects.drop_last()[i] == rects[i]);
        }
        lemma_rect_of_wf(rects.drop_last(), id);
        assert(rects[rects.len() - 1].rect.wf());
    }
}

/// The horizontal middle of the rectangle of the node `id`; 0 for a node
/// without a rectangle.
pub fn center_x_of(rects: &Vec<NodeRect>, id: usize) -> (c: i64)
    requires
        rects_wf(rects@),
    ensures
        c == center_of(rects@, id),
{
    proof {
        lemma_rect_of_wf(rects@, id);
    }
    match find_rect(rects, id) {
        Some(r) => r.center_x(),
        None => 0,
    }
}

/// The end of an edge that counts for the ports of the given kind: its target
/// for an input port, its source for an output port.
pub open spec fn near_end(edge: EdgeRecord, kind: PortKind) -> usize {
    match kind {
        PortKind::Input => edge.target,
        PortKind::Output => edge.source,
    }
}

/// The number of edges that come into the node `id`, for `Input`, or go out
/// of it, for `Output`. An edge from a node to itself counts both ways.
pub open spec fn degree(edges: Seq<EdgeRecord>, id: usize, kind: PortKind) -> nat
    decreases edges.len(),
{
    if edges.len() == 0 {
        0
    } else {
        degree(edges.drop_last(), id, kind) + if near_end(edges.last(), kind) == id {
            1nat
        } else {
            0nat
        }
    }
}

/// Counts the edges that come into the node `id`, for `Input`, or go out of
/// it, for `Output`.
pub fn count_edges(s: &GraphSnapshot, id: usize, kind: PortKind) -> (n: usize)
    ensures
        n == degree(s.edges@, id, kind),
{
    let mut n: usize = 0;
    let mut e: usize = 0;
    while e < s.edges.len()
        invariant
            0 <= e <= s.edges.len(),
            n == degree(s.edges@.take(e as int), id, kind),
            n <= e,
        decreases s.edges.len() - e,
    {
        proof {
            assert(s.edges@.take(e as int + 1).drop_last() =~= s.edges@.take(e as int));
        }
        let near: usize = match kind {
            PortKind::Input => s.edges[e].target,
            PortKind::Output => s.edges[e].source,
        };
        if near == id {
            n += 1;
        }
        e += 1;
    }
    proof {
        assert(s.edges@.take(s.edges.len() as int) =~= s.edges@);
    }
    n
}

/// The ports of kind `kind` of a node with `count` edges of that kind and
/// the rectangle `rect`: port `k` has slot `k` and lies `offset` off the
/// border, above the top for an input port and below the bottom for an
/// output port.
pub open spec fn border_ports(
    id: usize,
    rect: Rect,
    kind: PortKind,
    count: nat,
    offset: i64,
) -> Seq<PortPosition> {
    Seq::new(
        count,
        |k: int|
            PortPosition {
                slot: PortSlot { node: id, slot: k as usize, kind },
                pos: Point {
                    x: port_on_rect(rect, kind, k, count as int).x,
                    y: match kind {
                        PortKind::Input => (rect.min.y - offset) as i64,
                        PortKind::Output => (rect.max.y + offset) as i64,
                    },
                },
            },
    )
}

/// The ports of one node: its input ports, then its output ports; none for
/// a node without a rectangle.
pub open spec fn node_ports(
    edges: Seq<EdgeRecord>,
    rects: Seq<NodeRect>,
    id: usize,
    offset: i64,
) -> Seq<PortPosition> {
    match rect_of(rects, id) {
        Some(rect) => border_ports(
            id,
            rect,
            PortKind::Input,
            degree(edges, id, PortKind::Input),
            offset,
        ) + border_ports(id, rect, PortKind::Output, degree(edges, id, PortKind::Output), offset),
        None => Seq::empty(),
    }
}

/// The ports of the first `n` nodes of a snapshot, node after node.
pub open spec fn ports_upto(s: GraphSnapshot, rects: Seq<NodeRect>, offset: i64, n: nat) -> Seq<
    PortPosition,
>
    decreases n,
{
    if n == 0 {
        Seq::empty()
    } else {
        ports_upto(s, rects, offset, (n - 1) as nat) + node_ports(
            s.edges@,
            rects,
            s.nodes@[n - 1].id,
            offset,
        )
    }
}

/// Adds to `ports` the ports of kind `kind` of the node `id`.
fn push_border_ports(
    ports: &mut Vec<PortPosition>,
    id: usize,
    rect: Rect,
    kind: PortKind,
    count: usize,
    offset: i64,
)
    requires
        rect.wf(),
        -WORLD_LIMIT <= offset <= WORLD_LIMIT,
    ensures
        final(ports)@ == old(ports)@ + border_ports(id, rect, kind, count as nat, offset),
{
    let places: Vec<Point> = layout_ports_on_rect(rect, kind, count);
    let mut k: usize = 0;
    while k < count
        invariant
            0 <= k <= count,
            rect.wf(),
            -WORLD_LIMIT <= offset <= WORLD_LIMIT,
            places.len() == count,
            forall|i: int|
                0 <= i < count ==> #[trigger] places@[i] == port_on_rect(rect, kind, i, count as int),
            ports@ == old(ports)@ + border_ports(id, rect, kind, count as nat, offset).take(k as int),
        decreases count - k,
    {
        let place: Point = places[k];
        let y: i64 = match kind {
            PortKind::Input => rect.min.y - offset,
            PortKind::Output => rect.max.y + offset,
        };
        let ghost before = ports@;
        ports.push(PortPosition { slot: PortSlot::new(id, k, kind), pos: Point { x: place.x, y } });
        proof {
            let all = border_ports(id, rect, kind, count as nat, offset);
            assert(all.take(k as int + 1) =~= all.take(k as int).push(all[k as int]));
            assert(ports@ =~= old(ports)@ + all.take(k as int + 1));
        }
        k += 1;
    }
    proof {
        let all = border_ports(id, rect, kind, count as nat, offset);
        assert(all.take(count as int) =~= all);
    }
}

/// Gives every node that has a rectangle its ports: an input port for every
/// edge that comes in, an output port for every edge that goes out.
pub fn assign_port_positions(s: &GraphSnapshot, rects: &Vec<NodeRect>, offset: i64) -> (ports: Vec<
    PortPosition,
>)
    requires
        rects_wf(rects@),
        -WORLD_LIMIT <= offset <= WORLD_LIMIT,
    ensures
        ports@ == ports_upto(*s, rects@, offset, s.nodes@.len()),
{
    let mut ports: Vec<PortPosition> = Vec::new();
    let mut i: usize = 0;
    while i < s.nodes.len()
        invariant
            0 <= i <= s.nodes.len(),
            rects_wf(rects@),
            -WORLD_LIMIT <= offset <= WORLD_LIMIT,
            ports@ == ports_upto(*s, rects@, offset, i as nat),
        decreases s.nodes.len() - i,
    {
        let id: usize = s.nodes[i].id;
        let inputs: usize = count_edges(s, id, PortKind::Input);
        let outputs: usize = count_edges(s, id, PortKind::Output);
        proof {
            lemma_rect_of_wf(rects@, id);
        }
        match find_rect(rects, id) {
            Some(rect) => {
                push_border_ports(&mut ports, id, rect, PortKind::Input, inputs, offset);
                push_border_ports(&mut ports, id, rect, PortKind::Output, outputs, offset);
                proof {
                    assert(ports@ =~= ports_upto(*s, rects@, offset, i as nat) + node_ports(
                        s.edges@,
                        rects@,
                        id,
                        offset,
                    ));
                }
            },
            None => {
                proof {
                    assert(ports@ =~= ports_upto(*s, rects@, offset, i as nat) + node_ports(
                        s.edges@,
                        rects@,
                        id,
                        offset,
                    ));
                }
            },
        }
        i += 1;
    }
    ports
}

/// The ports of kind `kind` of the node `node`, in the order of the list.
pub open spec fn own_ports(ports: Seq<PortPosition>, node: usize, kind: PortKind) -> Seq<
    PortPosition,
>
    decreases ports.len(),
{
    if ports.len() == 0 {
        Seq::empty()
    } else if ports.last().slot.node == node && ports.last().slot.kind == kind {
        own_ports(ports.drop_last(), node, kind).push(ports.last())
    } else {
        own_ports(ports.drop_last(), node, kind)
    }
}

/// The ports of a node in two lists one behind the other are its ports in
/// the first followed by its ports in the second.
pub proof fn lemma_own_ports_append(
    a: Seq<PortPosition>,
    b: Seq<PortPosition>,
    node: usize,
    kind: PortKind,
)
    ensures
        own_ports(a + b, node, kind) == own_ports(a, node, kind) + own_ports(b, node, kind),
    decreases b.len(),
{
    if b.len() == 0 {
        assert(a + b =~= a);
        assert(own_ports(a, node, kind) + own_ports(b, node, kind) =~= own_ports(a, node, kind));
    } else {
        assert((a + b).drop_last() =~= a + b.drop_last());
        assert((a + b).last() == b.last());
        lemma_own_ports_append(a, b.drop_last(), node, kind);
        if b.last().slot.node == node && b.last().slot.kind == kind {
            assert(own_ports(a, node, kind) + own_ports(b.drop_last(), node, kind).push(b.last())
                =~= (own_ports(a, node, kind) + own_ports(b.drop_last(), node, kind)).push(
                b.last(),
            ));
        }
    }
}

/// Of a list of ports that all sit on one node and are of one kind, the
/// ports of that node and kind are the whole list, and no port is of any
/// other node or kind.
pub proof fn lemma_own_ports_uniform(
    list: Seq<PortPosition>,
    owner: usize,
    owned: PortKind,
    node: usize,
    kind: PortKind,
)
    requires
        forall|k: int|
            0 <= k < list.len() ==> (#[trigger] list[k]).slot.node == owner && list[k].slot.kind
                == owned,
    ensures
        own_ports(list, node, kind) == (if owner == node && owned == kind {
            list
        } else {
            Seq::empty()
        }),
    decreases list.len(),
{
    if list.len() > 0 {
        let front = list.drop_last();
        assert forall|k: int| 0 <= k < front.len() implies (#[trigger] front[k]).slot.node == owner
            && front[k].slot.kind == owned by {
            assert(front[k] == list[k]);
        }
        lemma_own_ports_uniform(front, owner, owned, node, kind);
        assert(list[list.len() - 1].slot.node == owner);
        if owner == node && owned == kind {
            assert(front.push(list.last()) =~= list);
        }
    } else {
        assert(list =~= Seq::empty());
    }
}

/// Among the ports that the first `n` nodes are given, the ports of kind
/// `kind` of a node with a rectangle are exactly its border ports: one for
/// every edge of that kind, with the slots 0, 1, 2 and so on in that order,
/// each at its place on the border. This holds provided that the node is
/// one of the `n` and no two nodes have the same identifier.
pub proof fn lemma_node_ports_exact(
    s: GraphSnapshot,
    rects: Seq<NodeRect>,
    offset: i64,
    n: nat,
    id: usize,
    kind: PortKind,
)
    requires
        n <= s.nodes.len(),
        forall|i: int, j: int|
            0 <= i < j < s.nodes.len() ==> (#[trigger] s.nodes@[i]).id != (#[trigger] s.nodes@[j]).id,
        rect_of(rects, id) is Some,
    ensures
        own_ports(ports_upto(s, rects, offset, n), id, kind) == (if exists|i: int|
            0 <= i < n && (#[trigger] s.nodes@[i]).id == id {
            border_ports(id, rect_of(rects, id)->0, kind, degree(s.edges@, id, kind), offset)
        } else {
            Seq::empty()
        }),
    decreases n,
{
    if n > 0 {
        let front = ports_upto(s, rects, offset, (n - 1) as nat);
        let here = s.nodes@[n - 1].id;
        let added = node_ports(s.edges@, rects, here, offset);
        lemma_node_ports_exact(s, rects, offset, (n - 1) as nat, id, kind);
        lemma_own_ports_append(front, added, id, kind);
        match rect_of(rects, here) {
            Some(rect) => {
                let ins = border_ports(
                    here,
                    rect,
                    PortKind::Input,
                    degree(s.edges@, here, PortKind::Input),
                    offset,
                );
                let outs = border_ports(
                    here,
                    rect,
                    PortKind::Output,
                    degree(s.edges@, here, PortKind::Output),
                    offset,
                );
                assert(added == ins + outs);
                lemma_own_ports_append(ins, outs, id, kind);
                lemma_own_ports_uniform(ins, here, PortKind::Input, id, kind);
                lemma_own_ports_uniform(outs, here, PortKind::Output, id, kind);
                if here == id {
                    if kind == PortKind::Input {
                        assert(ins + Seq::<PortPosition>::empty() =~= ins);
                    } else {
                        assert(Seq::<PortPosition>::empty() + outs =~= outs);
                    }
                } else {
                    assert(Seq::<PortPosition>::empty() + Seq::<PortPosition>::empty()
                        =~= Seq::<PortPosition>::empty());
                }
            },
            None => {
                assert(added =~= Seq::<PortPosition>::empty());
            },
        }
        let mine = own_ports(front, id, kind);
        let more = own_ports(added, id, kind);
        if here == id {
            if exists|i: int| 0 <= i < n - 1 && (#[trigger] s.nodes@[i]).id == id {
                let i = choose|i: int| 0 <= i < n - 1 && (#[trigger] s.nodes@[i]).id == id;
                assert(s.nodes@[i].id != s.nodes@[n - 1].id);
            }
            assert(s.nodes@[n - 1].id == id);
            assert(mine + more =~= more);
        } else {
            if exists|i: int| 0 <= i < n && (#[trigger] s.nodes@[i]).id == id {
                let i = choose|i: int| 0 <= i < n && (#[trigger] s.nodes@[i]).id == id;
                assert(i < n - 1);
            }
            assert(mine + more =~= mine);
        }
    }
}

/// The border ports of a node carry the slots 0, 1, 2 and so on, and lie
/// along the border in the order of their slots: none left of a port with a
/// lower slot, and right of it where the border is longer than the ports
/// are many.
pub proof fn lemma_border_ports_in_order(
    id: usize,
    rect: Rect,
    kind: PortKind,
    count: nat,
    offset: i64,
    a: int,
    b: int,
)
    requires
        rect.wf(),
        count <= usize::MAX,
        0 <= a < b < count,
    ensures
        border_ports(id, rect, kind, count, offset)[a].slot == (PortSlot {
            node: id,
            slot: a as usize,
            kind,
        }),
        border_ports(id, rect, kind, count, offset)[b].slot == (PortSlot {
            node: id,
            slot: b as usize,
            kind,
        }),
        border_ports(id, rect, kind, count, offset)[a].pos.x <= border_ports(
            id,
            rect,
            kind,
            count,
            offset,
        )[b].pos.x,
        rect.spec_width() > count ==> border_ports(id, rect, kind, count, offset)[a].pos.x
            < border_ports(id, rect, kind, count, offset)[b].pos.x,
{
    lemma_ports_in_order(rect.min.x as int, rect.spec_width(), a, b, count as int);
    lemma_port_x_ascends(rect.min.x as int, rect.spec_width(), a, count as int);
    lemma_port_x_ascends(rect.min.x as int, rect.spec_width(), b, count as int);
}

} // verus!
