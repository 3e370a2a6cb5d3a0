use jps_grid::grid::Grid;
use jps_grid::jps::{jump, successors};
use jps_grid::location::Location;
use jps_grid::search::{best_entry, jps, position};
use jps_grid::tools::reconstruct_path;

fn loc(x: i32, y: i32) -> Location {
    Location { x, y }
}

/// Straight-line distance in millionths of a cell.
fn euclid_micro(a: Location, b: Location) -> u64 {
    let dx = (a.x - b.x) as f64;
    let dy = (a.y - b.y) as f64;
    ((dx * dx + dy * dy).sqrt() * 1_000_000.0).round() as u64
}

fn euclid(a: &Location, b: &Location) -> f64 {
    let dx = (a.x - b.x) as f64;
    let dy = (a.y - b.y) as f64;
    (dx * dx + dy * dy).sqrt()
}

fn path_cost(start: &Location, path: &[Location]) -> f64 {
    let mut total = 0.0;
    let mut prev = *start;
    for p in path {
        total += euclid(&prev, p);
        prev = *p;
    }
    total
}

fn demo_walls() -> Vec<Location> {
    vec![
        loc(5, 0),
        loc(5, 1),
        loc(2, 2),
        loc(5, 2),
        loc(2, 3),
        loc(5, 3),
        loc(2, 4),
        loc(5, 4),
        loc(2, 5),
        loc(4, 5),
        loc(5, 5),
        loc(6, 5),
        loc(7, 5),
        loc(2, 6),
        loc(2, 7),
    ]
}

/// Cheapest cost over single-cell moves that the grid allows (plain Dijkstra).
fn plain_search_cost(grid: &Grid, start: &Location, goal: &Location) -> Option<f64> {
    let w = grid.get_width() as usize;
    let h = grid.get_height() as usize;
    let mut dist = vec![f64::INFINITY; w * h];
    let mut done = vec![false; w * h];
    let index = |l: &Location| l.y as usize * w + l.x as usize;
    dist[index(start)] = 0.0;
    let dirs = [
        loc(1, 0),
        loc(-1, 0),
        loc(0, 1),
        loc(0, -1),
        loc(1, 1),
        loc(1, -1),
        loc(-1, 1),
        loc(-1, -1),
    ];
    loop {
        let mut best: Option<usize> = None;
        for i in 0..w * h {
            if !done[i] && dist[i].is_finite() && best.map_or(true, |b| dist[i] < dist[b]) {
                best = Some(i);
            }
        }
        let b = best?;
        done[b] = true;
        let cur = loc((b % w) as i32, (b / w) as i32);
        if cur == *goal {
            return Some(dist[b]);
        }
        for d in dirs.iter() {
            if grid.is_valid_move(&cur, d) {
                let n = cur.add(d);
                let nd = dist[b] + euclid(&cur, &n);
                if nd < dist[index(&n)] {
                    dist[index(&n)] = nd;
                }
            }
        }
    }
}

#[test]
fn open_three_by_three_diagonal_collapses_to_goal() {
    let grid = Grid::new(3, 3, vec![]);
    let start = loc(0, 0);
    let goal = loc(2, 2);
    let came_from = jps(&grid, &start, &goal, euclid_micro);
    let path = reconstruct_path(&start, &goal, &came_from);
    assert_eq!(path, vec![loc(2, 2)]);
}

#[test]
fn walled_ten_by_ten_path_is_no_worse_than_plain_search() {
    let grid = Grid::new(10, 10, demo_walls());
    let start = loc(1, 1);
    let goal = loc(6, 2);
    let came_from = jps(&grid, &start, &goal, euclid_micro);
    let path = reconstruct_path(&start, &goal, &came_from);
    assert!(!path.is_empty());
    assert_eq!(*path.last().unwrap(), goal);
    let best = plain_search_cost(&grid, &start, &goal).unwrap();
    assert!(path_cost(&start, &path) <= best + 1e-9);
}

#[test]
fn goal_equal_to_start_gives_empty_path() {
    let grid = Grid::new(5, 5, vec![]);
    let start = loc(2, 2);
    let came_from = jps(&grid, &start, &start, euclid_micro);
    assert!(reconstruct_path(&start, &start, &came_from).is_empty());
}

#[test]
fn enclosed_goal_gives_empty_path() {
    let walls = vec![
        loc(6, 6),
        loc(7, 6),
        loc(8, 6),
        loc(6, 7),
        loc(8, 7),
        loc(6, 8),
        loc(7, 8),
        loc(8, 8),
    ];
    let grid = Grid::new(10, 10, walls);
    let start = loc(0, 0);
    let goal = loc(7, 7);
    let came_from = jps(&grid, &start, &goal, euclid_micro);
    assert!(came_from.iter().all(|e| e.0 != goal));
    assert!(reconstruct_path(&start, &goal, &came_from).is_empty());
}

#[test]
fn search_is_deterministic() {
    let grid = Grid::new(10, 10, demo_walls());
    let start = loc(1, 1);
    let goal = loc(6, 2);
    let first = jps(&grid, &start, &goal, euclid_micro);
    let second = jps(&grid, &start, &goal, euclid_micro);
    assert_eq!(first, second);
    assert_eq!(
        reconstruct_path(&start, &goal, &first),
        reconstruct_path(&start, &goal, &second)
    );
}

#[test]
fn open_grid_paths_have_octile_length() {
    let grid = Grid::new(7, 6, vec![]);
    let points = [loc(0, 0), loc(6, 5), loc(3, 0), loc(0, 4), loc(5, 2), loc(2, 3)];
    for s in points.iter() {
        for g in points.iter() {
            if s == g {
                continue;
            }
            let came_from = jps(&grid, s, g, euclid_micro);
            let path = reconstruct_path(s, g, &came_from);
            let dx = (s.x - g.x).abs() as f64;
            let dy = (s.y - g.y).abs() as f64;
            let octile = dx.max(dy) + (2f64.sqrt() - 1.0) * dx.min(dy);
            assert!((path_cost(s, &path) - octile).abs() < 1e-9);
        }
    }
}

#[test]
fn start_record_comes_first() {
    let grid = Grid::new(4, 4, vec![loc(1, 1)]);
    let start = loc(0, 0);
    let came_from = jps(&grid, &start, &loc(3, 3), euclid_micro);
    assert_eq!(came_from[0], (start, start));
}

#[test]
fn jump_stops_at_goal_and_at_walls() {
    let grid = Grid::new(10, 3, vec![loc(6, 1)]);
    assert_eq!(jump(&grid, &loc(0, 1), &loc(1, 0), &loc(4, 1)), Some(loc(4, 1)));
    assert_eq!(jump(&grid, &loc(0, 1), &loc(-1, 0), &loc(4, 1)), None);
    // Passing a wall's side: the cell beside the wall has a forced neighbour.
    assert_eq!(jump(&grid, &loc(0, 0), &loc(1, 0), &loc(9, 2)), Some(loc(6, 0)));
}

#[test]
fn diagonal_jump_stops_where_an_orthogonal_scan_succeeds() {
    let grid = Grid::new(6, 6, vec![]);
    assert_eq!(jump(&grid, &loc(0, 0), &loc(1, 1), &loc(5, 2)), Some(loc(2, 2)));
}

#[test]
fn successors_of_start_on_open_grid() {
    let grid = Grid::new(3, 3, vec![]);
    let found = successors(&grid, &loc(1, 1), None, &loc(2, 2));
    assert_eq!(found, vec![loc(2, 2)]);
}

#[test]
fn queue_takes_lowest_estimate_then_greatest_cell() {
    let open = vec![(5, loc(0, 0)), (3, loc(1, 1)), (3, loc(2, 0)), (3, loc(2, 1)), (4, loc(9, 9))];
    assert_eq!(best_entry(&open), 3);
    assert_eq!(best_entry(&vec![(7, loc(4, 4))]), 0);
}

#[test]
fn position_finds_records() {
    let came_from = vec![(loc(0, 0), loc(0, 0)), (loc(2, 3), loc(0, 0))];
    assert_eq!(position(&came_from, &loc(2, 3)), Some(1));
    assert_eq!(position(&came_from, &loc(3, 2)), None);
}

#[test]
fn goal_on_a_wall_gives_empty_path() {
    let grid = Grid::new(6, 6, vec![loc(4, 4)]);
    let start = loc(0, 0);
    let goal = loc(4, 4);
    let came_from = jps(&grid, &start, &goal, euclid_micro);
    assert!(came_from.iter().all(|e| e.0 != goal));
    assert!(reconstruct_path(&start, &goal, &came_from).is_empty());
}

#[test]
fn recorded_predecessors_are_recorded() {
    let grid = Grid::new(10, 10, demo_walls());
    let came_from = jps(&grid, &loc(1, 1), &loc(6, 2), euclid_micro);
    for e in came_from.iter() {
        assert!(came_from.iter().any(|f| f.0 == e.1));
        assert!(grid.is_in_bounds(&e.0) && grid.is_passable(&e.0));
    }
}

#[test]
fn every_record_leads_back_to_start() {
    let grid = Grid::new(10, 10, demo_walls());
    let start = loc(1, 1);
    let came_from = jps(&grid, &start, &loc(9, 9), euclid_micro);
    assert!(came_from.len() > 1);
    for e in came_from.iter() {
        let path = reconstruct_path(&start, &e.0, &came_from);
        assert_eq!(path.is_empty(), e.0 == start);
        if e.0 != start {
            assert_eq!(*path.last().unwrap(), e.0);
        }
    }
}

#[test]
fn goal_equal_to_start_records_only_start() {
    let grid = Grid::new(4, 4, vec![]);
    let start = loc(1, 2);
    assert_eq!(jps(&grid, &start, &start, euclid_micro), vec![(start, start)]);
}
