use cfg_route::astar::{AStar, CellBase, UNREACHED};
use cfg_route::field::{CostField, BASE_COST, FALLOFF_WEIGHT, IMPASSABLE, LINE_WEIGHT};
use cfg_route::geom::{distance_to_segment, floor_div, isqrt, Point, Rect};
use cfg_route::grid::Grid;

fn pt(x: i64, y: i64) -> Point {
    Point { x, y }
}

fn rect(x0: i64, y0: i64, x1: i64, y1: i64) -> Rect {
    Rect { min: pt(x0, y0), max: pt(x1, y1) }
}

fn grid(cols: usize, rows: usize, cell: i64) -> Grid {
    Grid { origin: pt(0, 0), cols, rows, cell }
}

fn cells_of(g: &Grid, path: &[Point]) -> Vec<(usize, usize)> {
    path.iter().map(|p| g.to_cell(*p)).collect()
}

fn is_four_connected(cells: &[(usize, usize)]) -> bool {
    cells.windows(2).all(|w| w[0].0.abs_diff(w[1].0) + w[0].1.abs_diff(w[1].1) == 1)
}

#[test]
fn isqrt_rounds_down() {
    assert_eq!(isqrt(0), 0);
    assert_eq!(isqrt(1), 1);
    assert_eq!(isqrt(3), 1);
    assert_eq!(isqrt(4), 2);
    assert_eq!(isqrt(24), 4);
    assert_eq!(isqrt(25), 5);
    assert_eq!(isqrt(1_000_000_000_000), 1_000_000);
    assert_eq!(isqrt(999_999_999_999), 999_999);
}

#[test]
fn floor_div_rounds_towards_negative_infinity() {
    assert_eq!(floor_div(7, 3), 2);
    assert_eq!(floor_div(-7, 3), -3);
    assert_eq!(floor_div(-6, 3), -2);
    assert_eq!(floor_div(0, 3), 0);
    assert_eq!(floor_div(-1, 5), -1);
}

#[test]
fn rect_contains_its_border() {
    let r = rect(0, 0, 10, 5);
    assert!(r.contains(pt(0, 0)));
    assert!(r.contains(pt(10, 5)));
    assert!(!r.contains(pt(11, 5)));
    assert!(!r.contains(pt(3, -1)));
}

#[test]
fn rect_distance_is_euclidean_rounded_down() {
    let r = rect(0, 0, 10, 10);
    assert_eq!(r.distance_to_pos(pt(5, 5)), 0);
    assert_eq!(r.distance_to_pos(pt(13, 14)), 5);
    assert_eq!(r.distance_to_pos(pt(-3, 5)), 3);
    assert_eq!(r.distance_to_pos(pt(12, 12)), 2); // sqrt(8) = 2.83
}

#[test]
fn rect_expand_union_center() {
    let r = rect(0, 0, 10, 4);
    assert_eq!(r.expand(2), rect(-2, -2, 12, 6));
    assert_eq!(r.union(&rect(-5, 1, 3, 9)), rect(-5, 0, 10, 9));
    assert_eq!(r.center_x(), 5);
    assert_eq!(rect(-3, 0, 0, 1).center_x(), -2);
    assert_eq!(r.width(), 10);
    assert_eq!(r.height(), 4);
}

#[test]
fn segment_distance_cases() {
    // beside the segment
    assert_eq!(distance_to_segment(pt(5, 3), pt(0, 0), pt(10, 0)), 3);
    // before its start
    assert_eq!(distance_to_segment(pt(-3, 4), pt(0, 0), pt(10, 0)), 5);
    // beyond its end
    assert_eq!(distance_to_segment(pt(13, 4), pt(0, 0), pt(10, 0)), 5);
    // a segment of no length
    assert_eq!(distance_to_segment(pt(3, 4), pt(0, 0), pt(0, 0)), 5);
}

#[test]
fn grid_from_scene_counts_whole_cells() {
    let g = Grid::from_scene(rect(-10, -10, 10, 11), 3);
    assert_eq!(g.cols, 6);
    assert_eq!(g.rows, 7);
    assert_eq!(g.cell, 3);
    // the origin is moved down to a multiple of the cell side
    assert_eq!(g.origin, pt(-12, -12));
}

#[test]
fn grid_from_scene_without_cells() {
    let none = Grid::from_scene(rect(0, 0, 10, 10), 0);
    assert_eq!((none.cols, none.rows, none.cell), (0, 0, 1));
    let negative = Grid::from_scene(rect(0, 0, 10, 10), -3);
    assert_eq!((negative.cols, negative.rows), (0, 0));
    let inverted = Grid::from_scene(rect(10, 10, 0, 0), 3);
    assert_eq!((inverted.cols, inverted.rows), (0, 0));
    let small = Grid::from_scene(rect(0, 0, 2, 2), 3);
    assert_eq!((small.cols, small.rows, small.cell), (0, 0, 3));
    assert_eq!(small.cell_count(), Some(0));
}

#[test]
fn cell_center_round_trips() {
    let g = Grid { origin: pt(-12, 6), cols: 7, rows: 5, cell: 3 };
    for x in 0..g.cols {
        for y in 0..g.rows {
            assert_eq!(g.to_cell(g.cell_center((x, y))), (x, y));
        }
    }
    let unit = Grid { origin: pt(0, 0), cols: 4, rows: 4, cell: 1 };
    for x in 0..4 {
        for y in 0..4 {
            assert_eq!(unit.to_cell(unit.cell_center((x, y))), (x, y));
        }
    }
}

#[test]
fn cell_center_exact_values() {
    let g = Grid { origin: pt(-12, 6), cols: 7, rows: 5, cell: 3 };
    assert_eq!(g.cell_center((0, 0)), pt(-11, 7));
    assert_eq!(g.cell_center((2, 4)), pt(-5, 19));
    let even = grid(3, 3, 10);
    assert_eq!(even.cell_center((1, 2)), pt(15, 25));
}

#[test]
fn to_cell_floors_and_clamps() {
    let g = grid(4, 3, 10);
    assert_eq!(g.to_cell(pt(0, 0)), (0, 0));
    assert_eq!(g.to_cell(pt(9, 9)), (0, 0));
    assert_eq!(g.to_cell(pt(10, 10)), (1, 1));
    assert_eq!(g.to_cell(pt(39, 29)), (3, 2));
    assert_eq!(g.to_cell(pt(40, 30)), (3, 2));
    assert_eq!(g.to_cell(pt(-1, -1)), (0, 0));
    assert_eq!(g.to_cell(pt(i64::MAX, i64::MIN)), (3, 0));
}

#[test]
fn to_index_is_row_major() {
    let g = grid(4, 3, 10);
    assert_eq!(g.to_index((0, 0)), 0);
    assert_eq!(g.to_index((3, 0)), 3);
    assert_eq!(g.to_index((0, 1)), 4);
    assert_eq!(g.to_index((3, 2)), 11);
}

#[test]
fn direction_is_the_sign_of_the_step() {
    assert_eq!(Grid::get_direction((1, 1), (2, 1)), (1, 0));
    assert_eq!(Grid::get_direction((1, 1), (0, 1)), (-1, 0));
    assert_eq!(Grid::get_direction((1, 1), (1, 5)), (0, 1));
    assert_eq!(Grid::get_direction((1, 1), (1, 0)), (0, -1));
    assert_eq!(Grid::get_direction((1, 1), (1, 1)), (0, 0));
}

#[test]
fn neighbors_in_their_order() {
    let g = grid(3, 3, 1);
    assert_eq!(g.cardinal_neighbors((1, 1)), vec![(2, 1), (0, 1), (1, 2), (1, 0)]);
    assert_eq!(g.cardinal_neighbors((0, 0)), vec![(1, 0), (0, 1)]);
    assert_eq!(g.cardinal_neighbors((2, 2)), vec![(1, 2), (2, 1)]);
    assert_eq!(grid(1, 1, 1).cardinal_neighbors((0, 0)), vec![]);
}

#[test]
fn new_field_is_uniform() {
    let f = CostField::new(grid(4, 3, 10));
    assert_eq!(f.cost, vec![BASE_COST; 12]);
    assert_eq!(f.cost_at((3, 2)), Some(BASE_COST));
    assert_eq!(f.cost_at((4, 0)), None);
    assert_eq!(f.cost_at((0, 3)), None);
}

#[test]
fn obstacle_blocks_cells_whose_middle_it_holds() {
    let mut f = CostField::new(grid(6, 6, 10));
    // middles lie at 5, 15, 25, ...; the rectangle holds those of columns 2..=3, rows 1..=2
    f.add_block_rect(rect(20, 10, 39, 29), 0);
    for x in 0..6 {
        for y in 0..6 {
            let inside = (2..=3).contains(&x) && (1..=2).contains(&y);
            let expected = if inside { IMPASSABLE } else { BASE_COST };
            assert_eq!(f.cost_at((x, y)), Some(expected));
        }
    }
}

#[test]
fn obstacle_falloff_exact_values() {
    let mut f = CostField::new(grid(8, 1, 10));
    // the rectangle holds the middle of column 0 only; reach = 2 cells = 20
    f.add_block_rect(rect(0, 0, 9, 9), 2);
    assert_eq!(f.cost_at((0, 0)), Some(IMPASSABLE));
    // middle of column 1 at x = 15: distance 6, penalty 3000 * 14 / 20 = 2100
    assert_eq!(f.cost_at((1, 0)), Some(BASE_COST + 2100));
    // middle of column 2 at x = 25: distance 16, penalty 3000 * 4 / 20 = 600
    assert_eq!(f.cost_at((2, 0)), Some(BASE_COST + 600));
    // beyond the reach
    assert_eq!(f.cost_at((3, 0)), Some(BASE_COST));
    assert_eq!(FALLOFF_WEIGHT, 3000);
}

#[test]
fn obstacle_margin_grows_the_blocked_area() {
    let mut f = CostField::new(grid(6, 1, 10));
    f.add_obstacle_rect(rect(20, 0, 29, 9), 10, 0);
    assert_eq!(f.cost_at((0, 0)), Some(BASE_COST));
    assert_eq!(f.cost_at((1, 0)), Some(IMPASSABLE));
    assert_eq!(f.cost_at((2, 0)), Some(IMPASSABLE));
    assert_eq!(f.cost_at((3, 0)), Some(IMPASSABLE));
    assert_eq!(f.cost_at((4, 0)), Some(BASE_COST));
}

#[test]
fn blocked_cells_stay_blocked() {
    let mut f = CostField::new(grid(4, 1, 10));
    f.add_block_rect(rect(0, 0, 9, 9), 0);
    f.add_block_rect(rect(30, 0, 39, 9), 5);
    f.add_polyline_penalty(&vec![pt(0, 5), pt(40, 5)], 20);
    assert_eq!(f.cost_at((0, 0)), Some(IMPASSABLE));
    assert_eq!(f.cost_at((3, 0)), Some(IMPASSABLE));
}

#[test]
fn penalties_never_block_a_cell() {
    let mut f = CostField::new(grid(2, 1, 10));
    f.cost[1] = IMPASSABLE - 5;
    f.add_polyline_penalty(&vec![pt(0, 5), pt(20, 5)], 20);
    assert_eq!(f.cost_at((1, 0)), Some(IMPASSABLE - 1));
}

#[test]
fn polyline_penalty_exact_values() {
    let mut f = CostField::new(grid(1, 5, 10));
    // a horizontal line through the middles of row 0; middles of the rows lie at y = 5, 15, ...
    f.add_polyline_penalty(&vec![pt(0, 5), pt(10, 5)], 25);
    assert_eq!(LINE_WEIGHT, 1000);
    assert_eq!(f.cost_at((0, 0)), Some(BASE_COST + 1000));
    // distance 10: 1000 * 15 / 25 = 600
    assert_eq!(f.cost_at((0, 1)), Some(BASE_COST + 600));
    // distance 20: 1000 * 5 / 25 = 200
    assert_eq!(f.cost_at((0, 2)), Some(BASE_COST + 200));
    assert_eq!(f.cost_at((0, 3)), Some(BASE_COST));
}

#[test]
fn polyline_of_less_than_two_points_changes_nothing() {
    let mut f = CostField::new(grid(2, 2, 10));
    f.add_polyline_penalty(&vec![], 25);
    f.add_polyline_penalty(&vec![pt(5, 5)], 25);
    assert_eq!(f.cost, vec![BASE_COST; 4]);
}

#[test]
fn polyline_segments_add_up() {
    let mut f = CostField::new(grid(1, 1, 10));
    f.add_polyline_penalty(&vec![pt(0, 5), pt(5, 5), pt(10, 5)], 10);
    assert_eq!(f.cost_at((0, 0)), Some(BASE_COST + 2000));
}

#[test]
fn unreached_record() {
    let c = CellBase::new();
    assert_eq!(c.g, UNREACHED);
    assert_eq!(c.h, 0);
    assert_eq!(c.parent, None);
    assert_eq!(c.f(), UNREACHED);
    assert_eq!(CellBase { g: 3000, h: 2000, parent: Some((1, 1)) }.f(), 5000);
}

#[test]
fn manhattan_counts_steps() {
    assert_eq!(AStar::manhattan((0, 0), (3, 4)), 7);
    assert_eq!(AStar::manhattan((5, 1), (2, 1)), 3);
    assert_eq!(AStar::manhattan((2, 2), (2, 2)), 0);
}

#[test]
fn path_on_uniform_field_has_manhattan_length() {
    let g = grid(12, 9, 10);
    let f = CostField::new(g);
    let mut a = AStar::with_options(&f, 0, Some(100));
    for (from, to) in [((0, 0), (11, 8)), ((11, 0), (0, 8)), ((3, 7), (9, 2)), ((5, 5), (5, 5))] {
        let path = a.find_path(g.cell_center(from), g.cell_center(to)).unwrap();
        let cells = cells_of(&g, &path);
        assert_eq!(cells.len(), AStar::manhattan(from, to) + 1);
        assert_eq!(cells[0], from);
        assert_eq!(cells[cells.len() - 1], to);
        assert!(is_four_connected(&cells));
    }
}

#[test]
fn path_points_are_cell_middles() {
    let g = grid(3, 1, 10);
    let f = CostField::new(g);
    let mut a = AStar::new(&f);
    assert_eq!(a.find_path(pt(1, 1), pt(29, 9)), Some(vec![pt(5, 5), pt(15, 5), pt(25, 5)]));
    assert_eq!(a.find_cells(pt(1, 1), pt(29, 9)), Some(vec![(0, 0), (1, 0), (2, 0)]));
}

#[test]
fn blocked_goal_gives_no_path() {
    let g = grid(5, 5, 10);
    let mut f = CostField::new(g);
    f.add_block_rect(rect(40, 40, 49, 49), 0);
    let mut a = AStar::new(&f);
    assert_eq!(a.find_path(pt(5, 5), pt(45, 45)), None);
    // also where start and goal are the same cell
    assert_eq!(a.find_path(pt(45, 45), pt(45, 45)), None);
}

#[test]
fn empty_grid_gives_no_path() {
    let f = CostField::new(grid(0, 0, 10));
    let mut a = AStar::new(&f);
    assert_eq!(a.find_path(pt(5, 5), pt(45, 45)), None);
    let g = grid(0, 4, 10);
    let f = CostField::new(g);
    let mut a = AStar::new(&f);
    assert_eq!(a.find_path(pt(5, 5), pt(45, 45)), None);
}

#[test]
fn walled_off_goal_gives_no_path() {
    let g = grid(5, 5, 10);
    let mut f = CostField::new(g);
    // a wall across the whole grid in column 2
    f.add_block_rect(rect(20, 0, 29, 49), 0);
    let mut a = AStar::new(&f);
    assert_eq!(a.find_path(pt(5, 5), pt(45, 45)), None);
}

#[test]
fn path_goes_around_an_obstacle() {
    let g = grid(7, 7, 10);
    let mut f = CostField::new(g);
    // a wall in column 3 that leaves only row 6 open
    f.add_block_rect(rect(30, 0, 39, 59), 0);
    let mut a = AStar::new(&f);
    let path = a.find_path(pt(5, 5), pt(65, 5)).unwrap();
    let cells = cells_of(&g, &path);
    assert_eq!(cells[0], (0, 0));
    assert_eq!(cells[cells.len() - 1], (6, 0));
    assert!(is_four_connected(&cells));
    assert!(cells.contains(&(3, 6)));
    for c in &cells {
        assert_ne!(f.cost_at(*c), Some(IMPASSABLE));
    }
}

#[test]
fn blocked_start_gives_no_path() {
    let g = grid(4, 1, 10);
    let mut f = CostField::new(g);
    f.add_block_rect(rect(0, 0, 9, 9), 0);
    let mut a = AStar::new(&f);
    assert_eq!(a.find_cells(pt(5, 5), pt(35, 5)), None);
    assert_eq!(a.find_path(pt(5, 5), pt(35, 5)), None);
    // from the cell beside it the way is free
    assert_eq!(a.find_cells(pt(15, 5), pt(35, 5)), Some(vec![(1, 0), (2, 0), (3, 0)]));
}

#[test]
fn start_and_goal_in_one_cell_give_that_cell() {
    let g = grid(3, 1, 10);
    let f = CostField::new(g);
    let mut a = AStar::new(&f);
    assert_eq!(a.find_path(pt(12, 3), pt(19, 9)), Some(vec![pt(15, 5)]));
    assert_eq!(a.find_cells(pt(12, 3), pt(19, 9)), Some(vec![(1, 0)]));
}

#[test]
fn one_change_of_heading_across_a_uniform_field() {
    let g = grid(3, 3, 10);
    let f = CostField::new(g);
    let mut a = AStar::new(&f);
    let cells = a.find_cells(pt(5, 5), pt(25, 25)).unwrap();
    assert_eq!(cells.len(), 5);
    let turns = cells
        .windows(3)
        .filter(|w| Grid::get_direction(w[0], w[1]) != Grid::get_direction(w[1], w[2]))
        .count();
    assert_eq!(turns, 1);
}

#[test]
fn no_route_passes_a_cell_twice() {
    let g = grid(12, 12, 10);
    let mut f = CostField::new(g);
    f.add_block_rect(rect(30, 0, 59, 89), 4);
    f.add_block_rect(rect(80, 30, 99, 119), 4);
    for turn in [0, 1000, 9000] {
        let mut a = AStar::with_options(&f, turn, None);
        let cells = a.find_cells(pt(5, 5), pt(115, 115)).unwrap();
        let mut seen = std::collections::HashSet::new();
        assert!(cells.iter().all(|c| seen.insert(*c)));
        assert!(cells.iter().all(|c| f.cost_at(*c) != Some(IMPASSABLE)));
    }
}

#[test]
fn padding_bounds_the_search() {
    let g = grid(9, 9, 10);
    let mut f = CostField::new(g);
    // a wall in column 4 that leaves only row 8 open
    f.add_block_rect(rect(40, 0, 49, 79), 0);
    // with a padding of one cell the search may not go down to row 8
    let mut narrow = AStar::with_options(&f, 1000, Some(1));
    assert_eq!(narrow.find_path(pt(5, 5), pt(85, 5)), None);
    let mut wide = AStar::with_options(&f, 1000, Some(8));
    assert!(wide.find_path(pt(5, 5), pt(85, 5)).is_some());
    let mut free = AStar::with_options(&f, 1000, None);
    assert!(free.find_path(pt(5, 5), pt(85, 5)).is_some());
}

#[test]
fn turn_penalty_prefers_straight_lines() {
    let g = grid(6, 6, 10);
    let f = CostField::new(g);
    let mut a = AStar::with_options(&f, 5000, None);
    let cells = a.find_cells(pt(5, 5), pt(55, 55)).unwrap();
    let turns = cells
        .windows(3)
        .filter(|w| Grid::get_direction(w[0], w[1]) != Grid::get_direction(w[1], w[2]))
        .count();
    assert_eq!(cells.len(), 11);
    assert_eq!(turns, 1);
}

#[test]
fn search_is_deterministic() {
    let g = grid(10, 10, 10);
    let mut f = CostField::new(g);
    f.add_block_rect(rect(30, 30, 59, 59), 3);
    let mut a = AStar::new(&f);
    let first = a.find_path(pt(5, 5), pt(95, 95));
    let second = a.find_path(pt(5, 5), pt(95, 95));
    assert!(first.is_some());
    assert_eq!(first, second);
}

#[test]
fn float_key_orders_bit_patterns_as_floats() {
    let values = [-1.0e30f32, -7.5, -1.0, -0.0, 0.0, 1.0e-30, 0.5, 1.0, 3.25, 1.0e30, f32::MAX];
    for a in values {
        for b in values {
            let (ka, kb) = (AStar::float_key(a.to_bits()), AStar::float_key(b.to_bits()));
            assert_eq!(ka.cmp(&kb), a.total_cmp(&b));
        }
    }
}

#[test]
fn float_key_exact_values() {
    assert_eq!(AStar::float_key(0), 0x8000_0000);
    assert_eq!(AStar::float_key(0x3f80_0000), 0xbf80_0000);
    assert_eq!(AStar::float_key(0x8000_0000), 0x7fff_ffff);
    assert_eq!(AStar::float_key(0xbf80_0000), 0x407f_ffff);
}

#[test]
fn uniform_path_with_default_padding_between_points_on_the_grid() {
    let g = Grid::from_scene(rect(-40, -40, 80, 50), 3);
    let f = CostField::new(g);
    let mut a = AStar::with_options(&f, 0, Some(1));
    let (from, to) = (pt(-39, 44), pt(70, -37));
    let path = a.find_path(from, to).unwrap();
    let (s, e) = (g.to_cell(from), g.to_cell(to));
    assert_eq!(path.len(), AStar::manhattan(s, e) + 1);
}

#[test]
fn long_way_through_a_maze_of_walls() {
    // walls in every fourth column, open at the top or at the bottom in turn
    let g = grid(41, 30, 10);
    let mut f = CostField::new(g);
    for (k, col) in (3..40).step_by(4).enumerate() {
        let x0 = col as i64 * 10;
        if k % 2 == 0 {
            f.add_block_rect(rect(x0, 0, x0 + 9, 289), 0);
        } else {
            f.add_block_rect(rect(x0, 10, x0 + 9, 299), 0);
        }
    }
    let mut a = AStar::with_options(&f, 1000, None);
    let cells = a.find_cells(pt(5, 5), pt(405, 5)).unwrap();
    assert_eq!(cells[0], (0, 0));
    assert_eq!(cells[cells.len() - 1], (40, 0));
    assert!(is_four_connected(&cells));
    for c in &cells {
        assert_eq!(f.cost_at(*c), Some(BASE_COST));
    }
    // ten walls, each passed at the far end of the one before
    assert!(cells.len() > 9 * 29);
    let mut seen = std::collections::HashSet::new();
    assert!(cells.iter().all(|c| seen.insert(*c)));
}

#[test]
fn uniform_paths_on_a_large_grid() {
    let g = grid(300, 200, 4);
    let f = CostField::new(g);
    let mut a = AStar::with_options(&f, 0, Some(100));
    for (from, to) in [((0, 0), (299, 199)), ((299, 0), (0, 199)), ((150, 100), (151, 100))] {
        let cells = a.find_cells(g.cell_center(from), g.cell_center(to)).unwrap();
        assert_eq!(cells.len(), AStar::manhattan(from, to) + 1);
        assert!(is_four_connected(&cells));
    }
}

#[test]
fn straight_route_in_one_row_with_a_turn_penalty() {
    let g = grid(3, 1, 10);
    let f = CostField::new(g);
    let mut a = AStar::new(&f);
    assert_eq!(a.find_path(pt(5, 5), pt(25, 5)), Some(vec![pt(5, 5), pt(15, 5), pt(25, 5)]));
    assert_eq!(a.find_cells(pt(25, 5), pt(5, 5)), Some(vec![(2, 0), (1, 0), (0, 0)]));
}

#[test]
fn uniform_routes_with_a_turn_penalty_turn_once_at_most() {
    let g = grid(6, 5, 10);
    let f = CostField::new(g);
    for turn in [1, 500, 1000, 3000, 50_000] {
        let mut a = AStar::with_options(&f, turn, None);
        for sx in 0..6 {
            for sy in 0..5 {
                for ex in 0..6 {
                    for ey in 0..5 {
                        let cells = a
                            .find_cells(g.cell_center((sx, sy)), g.cell_center((ex, ey)))
                            .unwrap();
                        assert_eq!(cells.len(), AStar::manhattan((sx, sy), (ex, ey)) + 1);
                        let turns = cells
                            .windows(3)
                            .filter(|w| {
                                Grid::get_direction(w[0], w[1]) != Grid::get_direction(w[1], w[2])
                            })
                            .count();
                        assert!(turns <= 1);
                    }
                }
            }
        }
    }
}
