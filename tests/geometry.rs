use jps_grid::grid::{all_dirs, Grid};
use jps_grid::location::Location;
use jps_grid::tools::{find_predecessor, reconstruct_path};

fn loc(x: i32, y: i32) -> Location {
    Location { x, y }
}

#[test]
fn direction_takes_signs() {
    assert_eq!(loc(5, -3).direction(), loc(1, -1));
    assert_eq!(loc(0, 7).direction(), loc(0, 1));
    assert_eq!(loc(-2, 0).direction(), loc(-1, 0));
    assert_eq!(loc(0, 0).direction(), loc(0, 0));
    for x in -3..=3 {
        for y in -3..=3 {
            let d = loc(x, y).direction();
            assert!((-1..=1).contains(&d.x) && (-1..=1).contains(&d.y));
            assert_eq!(d.x == 0, x == 0);
            assert_eq!(d.y == 0, y == 0);
        }
    }
}

#[test]
fn location_arithmetic() {
    assert_eq!(loc(1, 2).add(&loc(3, -4)), loc(4, -2));
    assert_eq!(loc(1, 2).subtract(&loc(3, -4)), loc(-2, 6));
    assert_eq!(loc(1, -2).scale(3), loc(3, -6));
    assert_eq!(loc(1, -2).negate(), loc(-1, 2));
}

#[test]
fn bounds_and_walls() {
    let grid = Grid::new(4, 3, vec![loc(1, 1), loc(9, 9)]);
    assert_eq!(grid.get_width(), 4);
    assert_eq!(grid.get_height(), 3);
    assert!(grid.is_in_bounds(&loc(3, 2)));
    assert!(!grid.is_in_bounds(&loc(4, 0)));
    assert!(!grid.is_in_bounds(&loc(0, -1)));
    assert!(!grid.is_passable(&loc(1, 1)));
    assert!(grid.is_passable(&loc(2, 1)));
    // A wall outside the rectangle is recorded but never in bounds.
    assert!(!grid.is_passable(&loc(9, 9)));
}

#[test]
fn diagonal_between_two_walls_is_refused() {
    let grid = Grid::new(3, 3, vec![loc(1, 0), loc(0, 1)]);
    assert!(grid.is_passable(&loc(1, 1)));
    assert!(!grid.is_valid_move(&loc(0, 0), &loc(1, 1)));
    let one_wall = Grid::new(3, 3, vec![loc(1, 0)]);
    assert!(one_wall.is_valid_move(&loc(0, 0), &loc(1, 1)));
}

#[test]
fn moves_off_the_grid_or_into_walls_are_refused() {
    let grid = Grid::new(3, 3, vec![loc(1, 0)]);
    assert!(!grid.is_valid_move(&loc(0, 0), &loc(-1, 0)));
    assert!(!grid.is_valid_move(&loc(0, 0), &loc(1, 0)));
    assert!(grid.is_valid_move(&loc(0, 0), &loc(0, 1)));
    assert!(grid.is_valid_move(&loc(0, 2), &loc(0, -2)));
}

#[test]
fn forced_classification() {
    let grid = Grid::new(5, 5, vec![]);
    // Diagonal travel: the crossing diagonal is forced, the same one is not.
    assert!(grid.is_forced(&loc(3, 1), &loc(2, 2), &loc(1, 1)));
    assert!(!grid.is_forced(&loc(3, 3), &loc(2, 2), &loc(1, 1)));
    // Orthogonal travel: any diagonal neighbour is forced.
    assert!(grid.is_forced(&loc(3, 3), &loc(2, 2), &loc(1, 0)));
    assert!(!grid.is_forced(&loc(3, 2), &loc(2, 2), &loc(1, 0)));
}

#[test]
fn neighbours_follow_direction_order() {
    let grid = Grid::new(3, 3, vec![loc(2, 1)]);
    let dirs = [loc(1, 0), loc(0, 1), loc(-1, 0)];
    assert_eq!(grid.neighbours(&loc(1, 1), &dirs), vec![loc(1, 2), loc(0, 1)]);
}

#[test]
fn pruned_without_parent_is_every_valid_step() {
    let grid = Grid::new(3, 3, vec![loc(1, 0), loc(0, 1)]);
    for x in 0..3 {
        for y in 0..3 {
            let c = loc(x, y);
            let expected: Vec<Location> = all_dirs()
                .iter()
                .filter(|d| grid.is_valid_move(&c, d))
                .map(|d| c.add(d))
                .collect();
            assert_eq!(grid.pruned_neighbours(&c, None), expected);
        }
    }
    assert_eq!(grid.pruned_neighbours(&loc(0, 0), None), Vec::<Location>::new());
}

#[test]
fn pruned_orthogonal_adds_forced_diagonal() {
    // Travelling east along y = 1 past a wall at (2, 0).
    let grid = Grid::new(5, 3, vec![loc(2, 0)]);
    let got = grid.pruned_neighbours(&loc(2, 1), Some(loc(1, 1)));
    assert_eq!(got, vec![loc(3, 1), loc(3, 0)]);
    let open = Grid::new(5, 3, vec![]);
    assert_eq!(open.pruned_neighbours(&loc(2, 1), Some(loc(1, 1))), vec![loc(3, 1)]);
}

#[test]
fn pruned_diagonal_adds_forced_neighbour() {
    // Travelling north-east into (2, 2) from (1, 1) with a wall at (2, 1).
    let grid = Grid::new(5, 5, vec![loc(2, 1)]);
    let got = grid.pruned_neighbours(&loc(2, 2), Some(loc(1, 1)));
    assert_eq!(got, vec![loc(3, 3), loc(3, 2), loc(2, 3), loc(3, 1)]);
}

#[test]
fn reconstruct_follows_chain() {
    let came_from = vec![
        (loc(0, 0), loc(0, 0)),
        (loc(3, 0), loc(0, 0)),
        (loc(3, 4), loc(3, 0)),
    ];
    assert_eq!(find_predecessor(&came_from, &loc(3, 4)), Some(loc(3, 0)));
    assert_eq!(find_predecessor(&came_from, &loc(1, 1)), None);
    assert_eq!(
        reconstruct_path(&loc(0, 0), &loc(3, 4), &came_from),
        vec![loc(3, 0), loc(3, 4)]
    );
}

#[test]
fn reconstruct_broken_chain_is_empty() {
    let came_from = vec![(loc(0, 0), loc(0, 0)), (loc(3, 4), loc(3, 0))];
    assert!(reconstruct_path(&loc(0, 0), &loc(3, 4), &came_from).is_empty());
    assert!(reconstruct_path(&loc(0, 0), &loc(7, 7), &came_from).is_empty());
}

#[test]
fn reconstruct_cycle_is_empty() {
    let came_from = vec![(loc(1, 0), loc(2, 0)), (loc(2, 0), loc(1, 0))];
    assert!(reconstruct_path(&loc(0, 0), &loc(1, 0), &came_from).is_empty());
}
