use vstd::prelude::*;

use crate::grid::Grid;
use crate::location::Location;

verus! {

/// Cells left before a scan from `pos` with sign `d` along one axis leaves `[0, size)`.
pub open spec fn axis_room(pos: i32, d: i32, size: u32) -> nat {
    let v: int = if d > 0 {
        size - pos
    } else if d < 0 {
        pos + 1
    } else {
        0
    };
    if v >= 0 {
        v as nat
    } else {
        0
    }
}

/// A bound on the number of steps a scan from `loc` along `dir` can take in `grid`.
pub open spec fn scan_room(grid: Grid, loc: Location, dir: Location) -> nat {
    axis_room(loc.x, dir.x, grid.spec_width()) + axis_room(loc.y, dir.y, grid.spec_height())
}

/// Some cell of `cells` is a forced neighbour of `at` for a scan along `dir`.
pub open spec fn has_forced(cells: Seq<Location>, at: Location, dir: Location) -> bool {
    exists|i: int| 0 <= i < cells.len() && Grid::forced(#[trigger] cells[i], at, dir)
}

/// The first jump point met when scanning from `initial` along `dir`, if any.
pub open spec fn jump_spec(grid: Grid, initial: Location, dir: Location, goal: Location) -> Option<
    Location,
>
    decreases scan_room(grid, initial, dir),
    via jump_spec_decreases
{
    if !grid.wf() || !initial.near(0) || !dir.is_step() || !grid.valid_move(initial, dir) {
        None
    } else {
        let next = initial.spec_add(dir);
        if next == goal {
            Some(next)
        } else if has_forced(grid.pruned_spec(next, Some(initial)), next, dir) {
            Some(next)
        } else if dir.is_diagonal() && (jump_spec(grid, next, Location { x: dir.x, y: 0 }, goal) is Some
            || jump_spec(grid, next, Location { x: 0, y: dir.y }, goal) is Some) {
            Some(next)
        } else {
            jump_spec(grid, next, dir, goal)
        }
    }
}

/// A valid step shrinks the room left along each moving axis by one.
pub proof fn lemma_scan_room_step(grid: Grid, loc: Location, dir: Location)
    requires
        grid.wf(),
        loc.near(0),
        dir.is_step(),
        grid.valid_move(loc, dir),
    ensures
        scan_room(grid, loc.spec_add(dir), dir) < scan_room(grid, loc, dir),
        scan_room(grid, loc.spec_add(dir), Location { x: dir.x, y: 0 }) < scan_room(grid, loc, dir),
        scan_room(grid, loc.spec_add(dir), Location { x: 0, y: dir.y }) < scan_room(grid, loc, dir),
        loc.spec_add(dir).near(0),
{
    let next = loc.spec_add(dir);
    assert(axis_room(next.x, dir.x, grid.spec_width()) < axis_room(loc.x, dir.x, grid.spec_width())
        || dir.x == 0);
    assert(axis_room(next.y, dir.y, grid.spec_height()) < axis_room(
        loc.y,
        dir.y,
        grid.spec_height(),
    ) || dir.y == 0);
}

#[via_fn]
proof fn jump_spec_decreases(grid: Grid, initial: Location, dir: Location, goal: Location) {
    if grid.wf() && initial.near(0) && dir.is_step() && grid.valid_move(initial, dir) {
        lemma_scan_room_step(grid, initial, dir);
    }
}

/// The first jump point along `dir` from `initial`: the goal, a cell with a
/// forced neighbour, or a diagonal cell from which an orthogonal scan finds one.
/// `None` when the scan runs into a wall or off the grid first.
pub fn jump(grid: &Grid, initial: &Location, dir: &Location, goal: &Location) -> (r: Option<
    Location,
>)
    requires
        grid.wf(),
        initial.near(0),
        dir.is_step(),
    ensures
        r == jump_spec(*grid, *initial, *dir, *goal),
        r matches Some(p) ==> grid.in_bounds(p) && grid.passable(p),
    decreases scan_room(*grid, *initial, *dir),
{
    let mut cur = *initial;
    loop
        invariant
            grid.wf(),
            cur.near(0),
            dir.is_step(),
            jump_spec(*grid, cur, *dir, *goal) == jump_spec(*grid, *initial, *dir, *goal),
            scan_room(*grid, cur, *dir) <= scan_room(*grid, *initial, *dir),
        decreases scan_room(*grid, cur, *dir),
    {
        if !grid.is_valid_move(&cur, dir) {
            return None;
        }
        proof {
            lemma_scan_room_step(*grid, cur, *dir);
        }
        let next = cur.add(dir);
        if next == *goal {
            return Some(next);
        }
        let pruned = grid.pruned_neighbours(&next, Some(cur));
        let mut i: usize = 0;
        while i < pruned.len()
            invariant
                grid.wf(),
                0 <= i <= pruned@.len(),
                pruned@ == grid.pruned_spec(next, Some(cur)),
                forall|k: int| 0 <= k < pruned@.len() ==> grid.in_bounds(#[trigger] pruned@[k]),
                grid.in_bounds(next),
                grid.passable(next),
                cur.near(0),
                dir.is_step(),
                grid.valid_move(cur, *dir),
                next == cur.spec_add(*dir),
                next != *goal,
                jump_spec(*grid, cur, *dir, *goal) == jump_spec(*grid, *initial, *dir, *goal),
                forall|k: int| 0 <= k < i ==> !Grid::forced(#[trigger] pruned@[k], next, *dir),
            decreases pruned@.len() - i,
        {
            if grid.is_forced(&pruned[i], &next, dir) {
                return Some(next);
            }
            i += 1;
        }
        if dir.x != 0 && dir.y != 0 {
            let dir_x = Location { x: dir.x, y: 0 };
            if jump(grid, &next, &dir_x, goal).is_some() {
                return Some(next);
            }
            let dir_y = Location { x: 0, y: dir.y };
            if jump(grid, &next, &dir_y, goal).is_some() {
                return Some(next);
            }
        }
        cur = next;
    }
}

/// The jump points found by scanning from `current` towards each cell of `cells`, in order.
/// A cell equal to `current` gives no direction and is passed over.
pub open spec fn jumps_towards(grid: Grid, current: Location, cells: Seq<Location>, goal: Location) -> Seq<
    Location,
>
    decreases cells.len(),
{
    if cells.len() == 0 {
        seq![]
    } else {
        let rest = jumps_towards(grid, current, cells.drop_last(), goal);
        let dir = cells.last().spec_sub(current).spec_direction();
        if !dir.is_step() {
            rest
        } else {
            match jump_spec(grid, current, dir, goal) {
                Some(p) => rest.push(p),
                None => rest,
            }
        }
    }
}

/// The successors of `current`: a jump from it towards each pruned neighbour.
pub open spec fn successors_spec(
    grid: Grid,
    current: Location,
    parent: Option<Location>,
    goal: Location,
) -> Seq<Location> {
    jumps_towards(grid, current, grid.pruned_spec(current, parent), goal)
}

/// Every jump point that `jumps_towards` lists is an open cell in bounds.
pub proof fn lemma_jumps_in_bounds(grid: Grid, current: Location, cells: Seq<Location>, goal: Location)
    requires
        grid.wf(),
    ensures
        forall|i: int|
            0 <= i < jumps_towards(grid, current, cells, goal).len() ==> grid.in_bounds(
                #[trigger] jumps_towards(grid, current, cells, goal)[i],
            ) && grid.passable(jumps_towards(grid, current, cells, goal)[i]),
    decreases cells.len(),
{
    if cells.len() > 0 {
        let all = jumps_towards(grid, current, cells, goal);
        let rest = jumps_towards(grid, current, cells.drop_last(), goal);
        lemma_jumps_in_bounds(grid, current, cells.drop_last(), goal);
        assert forall|i: int| 0 <= i < all.len() implies grid.in_bounds(#[trigger] all[i])
            && grid.passable(all[i]) by {
            if i < rest.len() {
                assert(all[i] == rest[i]);
            } else {
                let dir = cells.last().spec_sub(current).spec_direction();
                lemma_jump_lands(grid, current, dir, goal);
            }
        }
    }
}

/// A jump point is an open cell in bounds.
pub proof fn lemma_jump_lands(grid: Grid, initial: Location, dir: Location, goal: Location)
    ensures
        jump_spec(grid, initial, dir, goal) matches Some(p) ==> grid.in_bounds(p) && grid.passable(
            p,
        ),
    decreases scan_room(grid, initial, dir),
{
    if grid.wf() && initial.near(0) && dir.is_step() && grid.valid_move(initial, dir) {
        lemma_scan_room_step(grid, initial, dir);
        let next = initial.spec_add(dir);
        lemma_jump_lands(grid, next, dir, goal);
    }
}

/// The jump points reachable from `current` in one scan, one per pruned
/// neighbour whose scan finds one, in the order of the pruned neighbours.
pub fn successors(grid: &Grid, current: &Location, parent: Option<Location>, goal: &Location) -> (r:
    Vec<Location>)
    requires
        grid.wf(),
        current.near(0),
        parent matches Some(p) ==> i32::MIN <= current.x - p.x <= i32::MAX && i32::MIN
            <= current.y - p.y <= i32::MAX,
    ensures
        r@ == successors_spec(*grid, *current, parent, *goal),
        forall|i: int| 0 <= i < r@.len() ==> grid.in_bounds(#[trigger] r@[i]) && grid.passable(
            r@[i],
        ),
{
    let mut result: Vec<Location> = Vec::new();
    let neighbours = grid.pruned_neighbours(current, parent);
    let mut i: usize = 0;
    while i < neighbours.len()
        invariant
            grid.wf(),
            current.near(0),
            0 <= i <= neighbours@.len(),
            forall|k: int| 0 <= k < neighbours@.len() ==> grid.in_bounds(#[trigger] neighbours@[k]),
            result@ == jumps_towards(*grid, *current, neighbours@.take(i as int), *goal),
        decreases neighbours@.len() - i,
    {
        assert(neighbours@.take(i as int + 1).drop_last() =~= neighbours@.take(i as int));
        let n = neighbours[i];
        let dir = n.subtract(current).direction();
        if dir.x != 0 || dir.y != 0 {
            let jump_point = jump(grid, current, &dir, goal);
            if jump_point.is_some() {
                result.push(jump_point.unwrap());
            }
        }
        i += 1;
    }
    assert(neighbours@.take(neighbours@.len() as int) =~= neighbours@);
    proof {
        lemma_jumps_in_bounds(*grid, *current, neighbours@, *goal);
    }
    result
}

} // verus!
