use cfg_route::geom::{Point, Rect};
use cfg_route::graph::{EdgeRecord, GraphSnapshot, NodeRecord};
use cfg_route::matching::{assign_port_lines, position_of, sort_by_key, Keyed};
use cfg_route::ports::{
    assign_port_positions, center_x_of, count_edges, find_rect, layout_ports_on_rect, NodeRect,
    PortPosition, PORT_OFFSET,
};
use cfg_route::route::{build_field, find_port, get_world_rect, route_lines, RouteConfig};
use cfg_route::types::{EdgeKind, PortKind, PortLine, PortSlot};

fn pt(x: i64, y: i64) -> Point {
    Point { x, y }
}

fn rect(x0: i64, y0: i64, x1: i64, y1: i64) -> Rect {
    Rect { min: pt(x0, y0), max: pt(x1, y1) }
}

fn node(id: usize, is_entry: bool) -> NodeRecord {
    NodeRecord { id, is_entry }
}

fn edge(id: usize, source: usize, target: usize) -> EdgeRecord {
    EdgeRecord { id, source, target, kind: EdgeKind::Unconditional }
}

fn input(node: usize, slot: usize) -> PortSlot {
    PortSlot::new(node, slot, PortKind::Input)
}

fn output(node: usize, slot: usize) -> PortSlot {
    PortSlot::new(node, slot, PortKind::Output)
}

fn keyed(key: i64, item: usize) -> Keyed {
    Keyed { key, item }
}

fn pairs(list: &[Keyed]) -> Vec<(i64, usize)> {
    list.iter().map(|k| (k.key, k.item)).collect()
}

/// entry(0) on top, cond(1) below it, then(2) and else(3) side by side, exit(4) at the bottom
fn diamond() -> (GraphSnapshot, Vec<NodeRect>) {
    let s = GraphSnapshot {
        nodes: vec![node(0, true), node(1, false), node(2, false), node(3, false), node(4, false)],
        edges: vec![
            edge(0, 0, 1),
            edge(1, 1, 2),
            edge(2, 1, 3),
            edge(3, 2, 4),
            edge(4, 3, 4),
            edge(5, 4, 0),
        ],
    };
    let rects = vec![
        NodeRect { node: 0, rect: rect(100, 0, 200, 40) },
        NodeRect { node: 1, rect: rect(100, 100, 200, 140) },
        NodeRect { node: 2, rect: rect(0, 200, 100, 240) },
        NodeRect { node: 3, rect: rect(200, 200, 300, 240) },
        NodeRect { node: 4, rect: rect(100, 300, 200, 340) },
    ];
    (s, rects)
}

#[test]
fn ports_are_spread_evenly() {
    let r = rect(0, 10, 90, 50);
    assert_eq!(layout_ports_on_rect(r, PortKind::Input, 2), vec![pt(30, 10), pt(60, 10)]);
    assert_eq!(layout_ports_on_rect(r, PortKind::Output, 2), vec![pt(30, 50), pt(60, 50)]);
    assert_eq!(layout_ports_on_rect(r, PortKind::Input, 1), vec![pt(45, 10)]);
    assert_eq!(layout_ports_on_rect(r, PortKind::Output, 0), vec![]);
    // fractions are rounded down
    assert_eq!(
        layout_ports_on_rect(rect(0, 0, 10, 10), PortKind::Input, 3),
        vec![pt(2, 0), pt(5, 0), pt(7, 0)]
    );
}

#[test]
fn port_count_and_order() {
    for count in 0..12 {
        let places = layout_ports_on_rect(rect(-7, 0, 30, 5), PortKind::Output, count);
        assert_eq!(places.len(), count);
        assert!(places.windows(2).all(|w| w[0].x < w[1].x));
        assert!(places.iter().all(|p| -7 <= p.x && p.x <= 30 && p.y == 5));
    }
}

#[test]
fn ports_on_a_border_without_length_coincide() {
    let places = layout_ports_on_rect(rect(4, 0, 4, 5), PortKind::Input, 3);
    assert_eq!(places, vec![pt(4, 0), pt(4, 0), pt(4, 0)]);
}

#[test]
fn degrees_count_incident_edges() {
    let (s, _) = diamond();
    assert_eq!(count_edges(&s, 1, PortKind::Output), 2);
    assert_eq!(count_edges(&s, 1, PortKind::Input), 1);
    assert_eq!(count_edges(&s, 4, PortKind::Input), 2);
    assert_eq!(count_edges(&s, 9, PortKind::Input), 0);
    let looped = GraphSnapshot { nodes: vec![node(0, true)], edges: vec![edge(0, 0, 0)] };
    assert_eq!(count_edges(&looped, 0, PortKind::Input), 1);
    assert_eq!(count_edges(&looped, 0, PortKind::Output), 1);
}

#[test]
fn rect_lookup() {
    let (_, rects) = diamond();
    assert_eq!(find_rect(&rects, 3), Some(rect(200, 200, 300, 240)));
    assert_eq!(find_rect(&rects, 7), None);
    assert_eq!(center_x_of(&rects, 3), 250);
    assert_eq!(center_x_of(&rects, 7), 0);
}

#[test]
fn port_positions_of_the_diamond() {
    let (s, rects) = diamond();
    let ports = assign_port_positions(&s, &rects, PORT_OFFSET);
    let got: Vec<(PortSlot, Point)> = ports.iter().map(|p| (p.slot, p.pos)).collect();
    assert_eq!(
        got,
        vec![
            (input(0, 0), pt(150, -4)),
            (output(0, 0), pt(150, 44)),
            (input(1, 0), pt(150, 96)),
            (output(1, 0), pt(133, 144)),
            (output(1, 1), pt(166, 144)),
            (input(2, 0), pt(50, 196)),
            (output(2, 0), pt(50, 244)),
            (input(3, 0), pt(250, 196)),
            (output(3, 0), pt(250, 244)),
            (input(4, 0), pt(133, 296)),
            (input(4, 1), pt(166, 296)),
            (output(4, 0), pt(150, 344)),
        ]
    );
}

#[test]
fn node_without_rectangle_has_no_ports() {
    let (s, mut rects) = diamond();
    rects.remove(1);
    let ports = assign_port_positions(&s, &rects, PORT_OFFSET);
    assert_eq!(ports.len(), 9);
    assert!(ports.iter().all(|p| p.slot.node != 1));
}

#[test]
fn sort_is_stable() {
    let sorted = sort_by_key(&vec![keyed(5, 0), keyed(3, 1), keyed(5, 2), keyed(1, 3), keyed(3, 4)]);
    assert_eq!(pairs(&sorted), vec![(1, 3), (3, 1), (3, 4), (5, 0), (5, 2)]);
    assert_eq!(pairs(&sort_by_key(&vec![])), vec![]);
    assert_eq!(pairs(&sort_by_key(&vec![keyed(-1, 9)])), vec![(-1, 9)]);
}

#[test]
fn position_of_first_entry() {
    let list = vec![keyed(5, 7), keyed(3, 8), keyed(5, 7)];
    assert_eq!(position_of(&list, 7), Some(0));
    assert_eq!(position_of(&list, 8), Some(1));
    assert_eq!(position_of(&list, 9), None);
}

#[test]
fn lines_of_the_diamond() {
    let (s, rects) = diamond();
    let ports = assign_port_positions(&s, &rects, PORT_OFFSET);
    let lines = assign_port_lines(&s, &rects, &ports);
    assert_eq!(
        lines,
        vec![
            PortLine { from: output(0, 0), to: input(1, 0) },
            // then lies left of else: it takes the left output of cond
            PortLine { from: output(1, 0), to: input(2, 0) },
            PortLine { from: output(1, 1), to: input(3, 0) },
            // at exit the edge from then takes the left input port
            PortLine { from: output(2, 0), to: input(4, 0) },
            PortLine { from: output(3, 0), to: input(4, 1) },
            PortLine { from: output(4, 0), to: input(0, 0) },
        ]
    );
}

#[test]
fn lines_follow_the_places_of_the_nodes() {
    let (s, mut rects) = diamond();
    // swap then and else
    rects[2].rect = rect(200, 200, 300, 240);
    rects[3].rect = rect(0, 200, 100, 240);
    let ports = assign_port_positions(&s, &rects, PORT_OFFSET);
    let lines = assign_port_lines(&s, &rects, &ports);
    assert_eq!(lines[1], PortLine { from: output(1, 0), to: input(3, 0) });
    assert_eq!(lines[2], PortLine { from: output(1, 1), to: input(2, 0) });
    assert_eq!(lines[3], PortLine { from: output(2, 0), to: input(4, 1) });
    assert_eq!(lines[4], PortLine { from: output(3, 0), to: input(4, 0) });
}

#[test]
fn every_edge_gets_one_line_with_positioned_ports() {
    let (s, rects) = diamond();
    let ports = assign_port_positions(&s, &rects, PORT_OFFSET);
    let lines = assign_port_lines(&s, &rects, &ports);
    assert_eq!(lines.len(), s.edges.len());
    for l in &lines {
        assert!(find_port(&ports, l.from).is_some());
        assert!(find_port(&ports, l.to).is_some());
    }
}

#[test]
fn every_line_joins_the_ends_of_its_edge() {
    let (s, rects) = diamond();
    let ports = assign_port_positions(&s, &rects, PORT_OFFSET);
    let lines = assign_port_lines(&s, &rects, &ports);
    let mut joined: Vec<(usize, usize)> = lines.iter().map(|l| (l.from.node, l.to.node)).collect();
    let mut edges: Vec<(usize, usize)> = s.edges.iter().map(|e| (e.source, e.target)).collect();
    joined.sort();
    edges.sort();
    assert_eq!(joined, edges);
    assert!(lines.iter().all(|l| l.from.kind == PortKind::Output && l.to.kind == PortKind::Input));
}

#[test]
fn slots_count_up_from_left_to_right() {
    let (s, rects) = diamond();
    let ports = assign_port_positions(&s, &rects, PORT_OFFSET);
    for n in 0..5 {
        for kind in [PortKind::Input, PortKind::Output] {
            let own: Vec<&PortPosition> =
                ports.iter().filter(|p| p.slot.node == n && p.slot.kind == kind).collect();
            assert_eq!(own.len(), count_edges(&s, n, kind));
            for (k, p) in own.iter().enumerate() {
                assert_eq!(p.slot.slot, k);
            }
            assert!(own.windows(2).all(|w| w[0].pos.x < w[1].pos.x));
        }
    }
}

#[test]
fn edges_without_ports_get_no_line() {
    let (s, rects) = diamond();
    let mut ports = assign_port_positions(&s, &rects, PORT_OFFSET);
    // take away the second output of cond and every port on exit
    ports.retain(|p| p.slot != output(1, 1) && p.slot.node != 4);
    let lines = assign_port_lines(&s, &rects, &ports);
    assert_eq!(
        lines,
        vec![
            PortLine { from: output(0, 0), to: input(1, 0) },
            PortLine { from: output(1, 0), to: input(2, 0) },
        ]
    );
    assert_eq!(assign_port_lines(&s, &rects, &vec![]), vec![]);
}

#[test]
fn world_rect_holds_every_node() {
    let (_, rects) = diamond();
    assert_eq!(get_world_rect(&rects, None), Some(rect(-100, -100, 400, 440)));
    assert_eq!(get_world_rect(&rects, Some(0)), Some(rect(0, 0, 300, 340)));
    assert_eq!(get_world_rect(&vec![], None), None);
}

#[test]
fn default_config() {
    let c = RouteConfig::default();
    assert_eq!((c.cell_size, c.obstacle_margin, c.turn_penalty), (3, 0, 1000));
}

#[test]
fn field_of_the_diamond_blocks_the_nodes() {
    let (_, rects) = diamond();
    let scene = get_world_rect(&rects, None).unwrap();
    let field = build_field(scene, &rects, &RouteConfig::default()).unwrap();
    assert_eq!(field.grid.cell, 3);
    assert_eq!(field.grid.cols, 166);
    assert_eq!(field.grid.rows, 180);
    assert_eq!(field.grid.origin, pt(-102, -102));
    for r in &rects {
        let middle = pt((r.rect.min.x + r.rect.max.x) / 2, (r.rect.min.y + r.rect.max.y) / 2);
        let cell = field.grid.to_cell(middle);
        assert_eq!(field.cost_at(cell), Some(u32::MAX));
    }
    // far from every node nothing is raised
    assert_eq!(field.cost_at(field.grid.to_cell(pt(-90, -90))), Some(1000));
}

#[test]
fn scene_without_cells_gives_an_empty_field() {
    let field = build_field(rect(0, 0, 2, 2), &vec![], &RouteConfig::default()).unwrap();
    assert!(field.cost.is_empty());
    let zero = RouteConfig { cell_size: 0, obstacle_margin: 0, turn_penalty: 0 };
    let field = build_field(rect(0, 0, 100, 100), &vec![], &zero).unwrap();
    assert!(field.cost.is_empty());
}

#[test]
fn diamond_is_routed() {
    let (s, rects) = diamond();
    let config = RouteConfig::default();
    let ports = assign_port_positions(&s, &rects, PORT_OFFSET);
    let lines = assign_port_lines(&s, &rects, &ports);
    let scene = get_world_rect(&rects, None).unwrap();
    let field = build_field(scene, &rects, &config).unwrap();
    let routed = route_lines(&field, &lines, &ports, &config);
    assert_eq!(routed.len(), lines.len());
    for (i, r) in routed.iter().enumerate() {
        assert_eq!(r.index, i);
        assert_eq!(r.line, lines[i]);
        let cells: Vec<(usize, usize)> = r.points.iter().map(|p| field.grid.to_cell(*p)).collect();
        assert!(!cells.is_empty());
        assert!(cells.windows(2).all(|w| w[0].0.abs_diff(w[1].0) + w[0].1.abs_diff(w[1].1) == 1));
        assert_eq!(cells[0], field.grid.to_cell(find_port(&ports, r.line.from).unwrap()));
        assert_eq!(
            cells[cells.len() - 1],
            field.grid.to_cell(find_port(&ports, r.line.to).unwrap())
        );
        for c in &cells[1..] {
            assert_ne!(field.cost_at(*c), Some(u32::MAX));
        }
    }
}

#[test]
fn entry_to_exit_route_avoids_the_nodes_between() {
    let (s, rects) = diamond();
    let config = RouteConfig::default();
    let ports = assign_port_positions(&s, &rects, PORT_OFFSET);
    let scene = get_world_rect(&rects, None).unwrap();
    let between: Vec<NodeRect> = rects[1..4].to_vec();
    let field = build_field(scene, &between, &config).unwrap();
    let line = PortLine { from: output(0, 0), to: input(4, 0) };
    let routed = route_lines(&field, &vec![line], &ports, &config);
    assert_eq!(routed.len(), 1);
    let cells: Vec<(usize, usize)> =
        routed[0].points.iter().map(|p| field.grid.to_cell(*p)).collect();
    assert!(cells.len() > 1);
    assert!(cells.windows(2).all(|w| w[0].0.abs_diff(w[1].0) + w[0].1.abs_diff(w[1].1) == 1));
    for c in &cells {
        let middle = field.grid.cell_center(*c);
        assert!(between.iter().all(|r| !r.rect.contains(middle)));
    }
}

#[test]
fn lines_without_positions_or_routes_are_left_out() {
    let (s, rects) = diamond();
    let config = RouteConfig::default();
    let ports = assign_port_positions(&s, &rects, PORT_OFFSET);
    let scene = get_world_rect(&rects, None).unwrap();
    let field = build_field(scene, &rects, &config).unwrap();
    let lines = vec![
        PortLine { from: output(0, 0), to: input(9, 0) },
        PortLine { from: output(0, 0), to: input(1, 0) },
        PortLine { from: output(7, 3), to: input(1, 0) },
    ];
    let routed = route_lines(&field, &lines, &ports, &config);
    assert_eq!(routed.len(), 1);
    assert_eq!(routed[0].index, 1);
    // a port inside a node cannot be reached
    let inside = vec![PortPosition { slot: input(1, 0), pos: pt(150, 120) }, ports[1]];
    let line = vec![PortLine { from: output(0, 0), to: input(1, 0) }];
    assert!(route_lines(&field, &line, &inside, &config).is_empty());
}
