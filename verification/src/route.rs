//! One routing pass: from the rectangles of the nodes and the lines between
//! their ports to a polyline for every line that can be routed.

use crate::astar::AStar;
use crate::field::{cost_with_rect, CostField, BASE_COST};
use crate::geom::{Point, Rect, WORLD_LIMIT};
use crate::grid::{Grid, GridCoord};
use crate::ports::{rects_wf, NodeRect, PortPosition};
use crate::types::{PortLine, PortSlot};
use vstd::prelude::*;

verus! {

/// How far, in cell sides, the penalty around an obstacle reaches.
pub const FALLOFF_RADIUS: i64 = 5;

/// How far the scene reaches beyond the nodes where the caller has no other
/// wish.
pub const WORLD_MARGIN: i64 = 100;

/// The settings of a routing pass.
#[derive(Clone, Copy, Debug)]
pub struct RouteConfig {
    /// The side of a cell of the grid.
    pub cell_size: i64,
    /// How far around a node no line may go.
    pub obstacle_margin: i64,
    /// The cost of a change of heading.
    pub turn_penalty: u32,
}

impl RouteConfig {
    /// The margin lies within the world limit.
    pub open spec fn wf(self) -> bool {
        0 <= self.obstacle_margin <= WORLD_LIMIT
    }
}

impl Default for RouteConfig {
    fn default() -> (c: Self)
        ensures
            c == (RouteConfig { cell_size: 3, obstacle_margin: 0, turn_penalty: 1000 }),
    {
        RouteConfig { cell_size: 3, obstacle_margin: 0, turn_penalty: 1000 }
    }
}

/// The smallest rectangle that holds the first `n` rectangles of the list,
/// which is not empty.
pub open spec fn union_upto(rects: Seq<NodeRect>, n: nat) -> Rect
    decreases n,
{
    if n <= 1 {
        rects[0].rect
    } else {
        union_upto(rects, (n - 1) as nat).spec_union(rects[n - 1].rect)
    }
}

/// Gets a rectangle that holds every placed node, grown by `expand` or, for
/// want of it, by `WORLD_MARGIN`. There is none where no node is placed.
pub fn get_world_rect(rects: &Vec<NodeRect>, expand: Option<i64>) -> (world: Option<Rect>)
    requires
        rects_wf(rects@),
        match expand {
            Some(amount) => 0 <= amount,
            None => true,
        },
    ensures
        match world {
            Some(r) => rects.len() > 0 && r.wf() && r == union_upto(
                rects@,
                rects@.len(),
            ).spec_expand(
                match expand {
                    Some(amount) => amount as int,
                    None => WORLD_MARGIN as int,
                },
            ),
            None => rects.len() == 0,
        },
{
    if rects.len() == 0 {
        return None;
    }
    let mut bounds: Rect = rects[0].rect;
    let mut i: usize = 1;
    while i < rects.len()
        invariant
            1 <= i <= rects.len(),
            rects_wf(rects@),
            bounds.wf(),
            bounds == union_upto(rects@, i as nat),
        decreases rects.len() - i,
    {
        bounds = bounds.union(&rects[i].rect);
        i += 1;
    }
    let amount: i64 = match expand {
        Some(amount) => amount,
        None => WORLD_MARGIN,
    };
    Some(bounds.expand(amount))
}

/// The cost of a cell with middle `center` once the first `n` rectangles of
/// the list, each grown by `margin`, have been added as obstacles.
pub open spec fn cost_with_rects(
    cost: u32,
    cell: i64,
    rects: Seq<NodeRect>,
    n: nat,
    margin: i64,
    center: Point,
) -> u32
    decreases n,
{
    if n == 0 {
        cost
    } else {
        cost_with_rect(
            cost_with_rects(cost, cell, rects, (n - 1) as nat, margin, center),
            cell,
            rects[n - 1].rect.spec_expand(margin as int),
            FALLOFF_RADIUS,
            center,
        )
    }
}

/// Builds the cost field of a scene: the grid cut from the scene, with
/// every placed node as an obstacle. There is none where the grid has more
/// cells than the machine can count.
pub fn build_field(scene: Rect, rects: &Vec<NodeRect>, config: &RouteConfig) -> (built: Option<
    CostField,
>)
    requires
        rects_wf(rects@),
        config.wf(),
    ensures
        match built {
            Some(field) => {
                &&& field.wf()
                &&& field.grid == Grid::spec_from_scene(scene, config.cell_size)
                &&& forall|c: GridCoord| #[trigger]
                    field.grid.in_range(c) ==> field.cost@[field.grid.spec_index(c)]
                        == cost_with_rects(
                        BASE_COST,
                        field.grid.cell,
                        rects@,
                        rects@.len(),
                        config.obstacle_margin,
                        field.grid.spec_center(c),
                    )
            },
            None => Grid::spec_from_scene(scene, config.cell_size).cell_total() > usize::MAX,
        },
{
    let grid: Grid = Grid::from_scene(scene, config.cell_size);
    if grid.cell_count().is_none() {
        return None;
    }
    let mut field: CostField = CostField::new(grid);
    let mut i: usize = 0;
    proof {
        assert forall|c: GridCoord| #[trigger] grid.in_range(c) implies field.cost@[grid.spec_index(
            c,
        )] == BASE_COST by {
            crate::grid::lemma_index_in_total(
                grid.cols as int,
                grid.rows as int,
                c.0 as int,
                c.1 as int,
            );
        }
    }
    while i < rects.len()
        invariant
            0 <= i <= rects.len(),
            rects_wf(rects@),
            config.wf(),
            field.wf(),
            field.grid == grid,
            forall|c: GridCoord| #[trigger]
                grid.in_range(c) ==> field.cost@[grid.spec_index(c)] == cost_with_rects(
                    BASE_COST,
                    grid.cell,
                    rects@,
                    i as nat,
                    config.obstacle_margin,
                    grid.spec_center(c),
                ),
        decreases rects.len() - i,
    {
        field.add_obstacle_rect(rects[i].rect, config.obstacle_margin, FALLOFF_RADIUS);
        i += 1;
    }
    Some(field)
}

/// The position of the first entry for the port `slot`.
pub open spec fn position_of_slot(ports: Seq<PortPosition>, slot: PortSlot) -> Option<Point>
    decreases ports.len(),
{
    if ports.len() == 0 {
        None
    } else {
        match position_of_slot(ports.drop_last(), slot) {
            Some(p) => Some(p),
            None => if ports.last().slot == slot {
                Some(ports.last().pos)
            } else {
                None
            },
        }
    }
}

/// What `position_of_slot` has found in the first `i` entries it finds in
/// the whole list.
pub proof fn lemma_slot_found_stays(ports: Seq<PortPosition>, slot: PortSlot, i: int)
    requires
        0 <= i <= ports.len(),
        position_of_slot(ports.take(i), slot) is Some,
    ensures
        position_of_slot(ports, slot) == position_of_slot(ports.take(i), slot),
    decreases ports.len() - i,
{
    if i == ports.len() {
        assert(ports.take(i) =~= ports);
    } else {
        assert(ports.take(i + 1).drop_last() =~= ports.take(i));
        lemma_slot_found_stays(ports, slot, i + 1);
    }
}

/// Looks up where the port `slot` lies.
pub fn find_port(ports: &Vec<PortPosition>, slot: PortSlot) -> (pos: Option<Point>)
    ensures
        pos == position_of_slot(ports@, slot),
{
    let mut i: usize = 0;
    while i < ports.len()
        invariant
            0 <= i <= ports.len(),
            position_of_slot(ports@.take(i as int), slot) is None,
        decreases ports.len() - i,
    {
        proof {
            assert(ports@.take(i as int + 1).drop_last() =~= ports@.take(i as int));
        }
        if ports[i].slot == slot {
            proof {
                lemma_slot_found_stays(ports@, slot, i as int + 1);
            }
            return Some(ports[i].pos);
        }
        i += 1;
    }
    proof {
        assert(ports@.take(ports.len() as int) =~= ports@);
    }
    None
}

/// A line with the polyline that was found for it.
#[derive(Debug)]
pub struct RoutedLine {
    /// The place of the line in the list of lines.
    pub index: usize,
    pub line: PortLine,
    /// The polyline, from the output port to the input port.
    pub points: Vec<Point>,
}

/// The line can be routed: both its ports have a position, and a route
/// leads from the one to the other.
#[verifier::opaque]
pub open spec fn line_routable(a: AStar, ports: Seq<PortPosition>, line: PortLine) -> bool {
    &&& position_of_slot(ports, line.from) is Some
    &&& position_of_slot(ports, line.to) is Some
    &&& a.routable(position_of_slot(ports, line.from)->0, position_of_slot(ports, line.to)->0)
}

/// `points` is a route for the line: the middles of the cells of a walk
/// from the cell of its output port to the cell of its input port that
/// passes no cell twice.
#[verifier::opaque]
pub open spec fn is_route(a: AStar, ports: Seq<PortPosition>, line: PortLine, points: Seq<Point>) -> bool {
    exists|w: Seq<GridCoord>|
        a.is_route(position_of_slot(ports, line.from)->0, position_of_slot(ports, line.to)->0, w)
            && points == a.centers(w)
}

/// What holds of the routed lines once the first `n` lines have been tried:
/// they stand in the order of the lines, each with a route of its own, and
/// there is one for a line exactly if the line can be routed.
pub open spec fn routed_upto(
    a: AStar,
    ports: Seq<PortPosition>,
    lines: Seq<PortLine>,
    routed: Seq<RoutedLine>,
    n: int,
) -> bool {
    &&& forall|k: int|
        0 <= k < routed.len() ==> (#[trigger] routed[k]).index < n && routed[k].line
            == lines[routed[k].index as int] && line_routable(a, ports, routed[k].line)
            && is_route(a, ports, routed[k].line, routed[k].points@)
    &&& forall|j: int, k: int|
        0 <= j < k < routed.len() ==> (#[trigger] routed[j]).index < (#[trigger] routed[k]).index
    &&& forall|i: int|
        0 <= i < n && line_routable(a, ports, lines[i]) ==> #[trigger] has_route(routed, i)
}

/// One of the routed lines is the line at place `i`.
pub open spec fn has_route(routed: Seq<RoutedLine>, i: int) -> bool {
    exists|k: int| 0 <= k < routed.len() && (#[trigger] routed[k]).index == i
}

/// Routes one line: looks up its two ports and searches for a route from
/// the one to the other.
pub fn route_line(search: &mut AStar, ports: &Vec<PortPosition>, line: PortLine) -> (points: Option<
    Vec<Point>,
>)
    requires
        old(search).wf(),
    ensures
        *final(search) == *old(search),
        points is Some <==> line_routable(*old(search), ports@, line),
        match points {
            Some(p) => is_route(*old(search), ports@, line, p@),
            None => true,
        },
{
    reveal(line_routable);
    reveal(is_route);
    match (find_port(ports, line.from), find_port(ports, line.to)) {
        (Some(from), Some(to)) => search.find_path(from, to),
        _ => None,
    }
}

/// Adding the route of the line in turn keeps what holds of the routed
/// lines.
pub proof fn lemma_routed_push(
    a: AStar,
    ports: Seq<PortPosition>,
    lines: Seq<PortLine>,
    before: Seq<RoutedLine>,
    after: Seq<RoutedLine>,
    i: int,
)
    requires
        0 <= i < lines.len(),
        routed_upto(a, ports, lines, before, i),
        after.len() == before.len() + 1,
        forall|k: int| 0 <= k < before.len() ==> after[k] == before[k],
        after[before.len() as int].index == i,
        after[before.len() as int].line == lines[i],
        line_routable(a, ports, lines[i]),
        is_route(a, ports, lines[i], after[before.len() as int].points@),
    ensures
        routed_upto(a, ports, lines, after, i + 1),
{
    let last = before.len() as int;
    assert forall|k: int| 0 <= k < after.len() implies (#[trigger] after[k]).index < i + 1
        && after[k].line == lines[after[k].index as int] && line_routable(a, ports, after[k].line)
        && is_route(a, ports, after[k].line, after[k].points@) by {
        if k < last {
            assert(after[k] == before[k]);
            assert(before[k].index < i);
        }
    }
    assert forall|j: int, k: int| 0 <= j < k < after.len() implies (#[trigger] after[j]).index < (
    #[trigger] after[k]).index by {
        assert(after[j] == before[j]);
        assert(before[j].index < i);
        if k < last {
            assert(after[k] == before[k]);
        }
    }
    assert forall|x: int|
        0 <= x < i + 1 && line_routable(a, ports, lines[x]) implies #[trigger] has_route(
        after,
        x,
    ) by {
        if x < i {
            assert(has_route(before, x));
            let k = choose|k: int| 0 <= k < before.len() && (#[trigger] before[k]).index == x;
            assert(after[k] == before[k]);
        } else {
            assert(after[last].index == x);
        }
    }
}

/// Routes every line over the field: a line whose ports both have a
/// position and between which a route exists gets a polyline; any other
/// line is left out.
pub fn route_lines(
    field: &CostField,
    lines: &Vec<PortLine>,
    ports: &Vec<PortPosition>,
    config: &RouteConfig,
) -> (routed: Vec<RoutedLine>)
    requires
        field.wf(),
    ensures
        routed_upto(
            AStar { field, turn_penalty: config.turn_penalty, pad: Some(crate::astar::DEFAULT_PAD) },
            ports@,
            lines@,
            routed@,
            lines@.len() as int,
        ),
{
    let mut search: AStar = AStar::with_options(
        field,
        config.turn_penalty,
        Some(crate::astar::DEFAULT_PAD),
    );
    let ghost a = search;
    let mut routed: Vec<RoutedLine> = Vec::new();
    let mut i: usize = 0;
    while i < lines.len()
        invariant
            0 <= i <= lines.len(),
            search == a,
            a.wf(),
            routed_upto(a, ports@, lines@, routed@, i as int),
        decreases lines.len() - i,
    {
        let line: PortLine = lines[i];
        let ghost before = routed@;
        match route_line(&mut search, ports, line) {
            Some(points) => {
                routed.push(RoutedLine { index: i, line, points });
                proof {
                    lemma_routed_push(a, ports@, lines@, before, routed@, i as int);
                }
            },
            None => {},
        }
        i += 1;
    }
    routed
}

/// A cell whose middle lies in one of the obstacles, each grown by the
/// margin, is impassable once the obstacles have been added.
pub proof fn lemma_rects_block(
    cost: u32,
    cell: i64,
    rects: Seq<NodeRect>,
    n: nat,
    margin: i64,
    center: Point,
    i: int,
)
    requires
        0 <= i < n <= rects.len(),
        rects[i].rect.spec_expand(margin as int).spec_contains(center),
    ensures
        cost_with_rects(cost, cell, rects, n, margin, center) == crate::field::IMPASSABLE,
    decreases n,
{
    if i < n - 1 {
        lemma_rects_block(cost, cell, rects, (n - 1) as nat, margin, center, i);
        crate::field::lemma_obstacle_raises(
            cost_with_rects(cost, cell, rects, (n - 1) as nat, margin, center),
            cell,
            rects[n - 1].rect.spec_expand(margin as int),
            FALLOFF_RADIUS,
            center,
        );
    }
}

} // verus!
