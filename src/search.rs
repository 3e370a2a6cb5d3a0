use vstd::prelude::*;

use crate::grid::Grid;
use crate::jps::{successors, successors_spec};
use crate::location::Location;
use crate::tools::{chain_back, lemma_lookup_absent, lemma_lookup_found, lookup, path_spec};

verus! {

/// Index of a cell of the rectangle in row-major order.
pub open spec fn cell_index(grid: Grid, loc: Location) -> int {
    loc.y * grid.spec_width() + loc.x
}

/// Sum of a sequence of costs.
pub open spec fn total(costs: Seq<u64>) -> int
    decreases costs.len(),
{
    if costs.len() == 0 {
        0
    } else {
        total(costs.drop_last()) + costs.last()
    }
}

/// Replacing one cost changes the sum by the difference.
pub proof fn lemma_total_update(costs: Seq<u64>, i: int, v: u64)
    requires
        0 <= i < costs.len(),
    ensures
        total(costs.update(i, v)) == total(costs) - costs[i] + v,
    decreases costs.len(),
{
    let u = costs.update(i, v);
    if i < costs.len() - 1 {
        assert(u.drop_last() =~= costs.drop_last().update(i, v));
        lemma_total_update(costs.drop_last(), i, v);
    } else {
        assert(u.drop_last() =~= costs.drop_last());
    }
}

/// Appending a cost adds it to the sum.
pub proof fn lemma_total_push(costs: Seq<u64>, v: u64)
    ensures
        total(costs.push(v)) == total(costs) + v,
{
    assert(costs.push(v).drop_last() =~= costs);
}

/// Distinct cells of the rectangle number at most `width * height`.
pub proof fn lemma_distinct_cells_bound(grid: Grid, cells: Seq<Location>)
    requires
        grid.wf(),
        forall|i: int| 0 <= i < cells.len() ==> grid.in_bounds(#[trigger] cells[i]),
        forall|i: int, j: int| 0 <= i < j < cells.len() ==> cells[i] != cells[j],
    ensures
        cells.len() <= grid.spec_width() * grid.spec_height(),
{
    let w = grid.spec_width() as int;
    let h = grid.spec_height() as int;
    let idx = cells.map_values(|l: Location| cell_index(grid, l));
    assert forall|i: int, j: int| 0 <= i < idx.len() && 0 <= j < idx.len() && i != j implies idx[i]
        != idx[j] by {
        let a = cells[i];
        let b = cells[j];
        assert(grid.in_bounds(a) && grid.in_bounds(b));
        let (ax, ay, bx, by) = (a.x as int, a.y as int, b.x as int, b.y as int);
        if ay < by {
            assert(ay * w + ax < by * w + bx) by (nonlinear_arith)
                requires
                    ay < by,
                    0 <= ax < w,
                    0 <= bx < w,
            ;
        } else if by < ay {
            assert(by * w + bx < ay * w + ax) by (nonlinear_arith)
                requires
                    by < ay,
                    0 <= ax < w,
                    0 <= bx < w,
            ;
        } else {
            assert(ax != bx || ay != by) by {
                if i < j {
                    assert(cells[i] != cells[j]);
                } else {
                    assert(cells[j] != cells[i]);
                }
            }
        }
    }
    assert(idx.no_duplicates());
    idx.unique_seq_to_set();
    vstd::set_lib::lemma_int_range(0, w * h);
    assert forall|k: int| idx.to_set().contains(k) implies vstd::set_lib::set_int_range(0, w * h).contains(k) by {
        let i = choose|i: int| 0 <= i < idx.len() && idx[i] == k;
        let a = cells[i];
        assert(grid.in_bounds(a));
        let (ax, ay) = (a.x as int, a.y as int);
        assert(0 <= ay * w + ax < w * h) by (nonlinear_arith)
            requires
                0 <= ax < w,
                0 <= ay < h,
        ;
    }
    vstd::set_lib::lemma_len_subset(idx.to_set(), vstd::set_lib::set_int_range(0, w * h));
}

/// The record lists of a search: `came_from[i]` pairs a cell with its
/// predecessor and `costs[i]` is the best cost known for it. The start comes
/// first with itself as predecessor and cost 0; the other cells are distinct
/// open cells in bounds.
pub open spec fn records_ok(
    grid: Grid,
    start: Location,
    came_from: Seq<(Location, Location)>,
    costs: Seq<u64>,
) -> bool {
    &&& came_from.len() == costs.len()
    &&& came_from.len() >= 1
    &&& came_from[0] == (start, start)
    &&& costs[0] == 0
    &&& forall|i: int, j: int| 0 <= i < j < came_from.len() ==> came_from[i].0 != came_from[j].0
    &&& forall|i: int|
        1 <= i < came_from.len() ==> grid.in_bounds(#[trigger] came_from[i].0) && grid.passable(
            came_from[i].0,
        ) && came_from[i].0 != start
    &&& forall|i: int| 0 <= i < came_from.len() ==> (#[trigger] came_from[i]).1.near(0)
}

/// Room for improvement left in a search: each cell not yet recorded may still
/// be recorded once, and each recorded cost may still fall.
pub open spec fn potential(grid: Grid, recorded: int, costs: Seq<u64>) -> int {
    (grid.spec_width() * grid.spec_height() + 1 - recorded) * (u64::MAX + 1) + total(costs)
}

/// The records never hold more than one entry per cell of the rectangle, plus the start.
pub proof fn lemma_records_bound(
    grid: Grid,
    start: Location,
    came_from: Seq<(Location, Location)>,
    costs: Seq<u64>,
)
    requires
        grid.wf(),
        records_ok(grid, start, came_from, costs),
    ensures
        came_from.len() <= grid.spec_width() * grid.spec_height() + 1,
        total(costs) >= 0,
{
    let cells = came_from.subrange(1, came_from.len() as int).map_values(
        |e: (Location, Location)| e.0,
    );
    assert forall|i: int| 0 <= i < cells.len() implies grid.in_bounds(#[trigger] cells[i]) by {
        assert(cells[i] == came_from[i + 1].0);
    }
    assert forall|i: int, j: int| 0 <= i < j < cells.len() implies cells[i] != cells[j] by {
        assert(cells[i] == came_from[i + 1].0);
        assert(cells[j] == came_from[j + 1].0);
    }
    lemma_distinct_cells_bound(grid, cells);
    lemma_total_nonneg(costs);
}

/// A sum of costs is never negative.
pub proof fn lemma_total_nonneg(costs: Seq<u64>)
    ensures
        total(costs) >= 0,
    decreases costs.len(),
{
    if costs.len() > 0 {
        lemma_total_nonneg(costs.drop_last());
    }
}

/// Entry `a` of the queue is taken before entry `b`: a lower estimate, or an
/// equal one with a lexicographically greater cell.
pub open spec fn goes_first(a: (u64, Location), b: (u64, Location)) -> bool {
    a.0 < b.0 || (a.0 == b.0 && (a.1.x > b.1.x || (a.1.x == b.1.x && a.1.y > b.1.y)))
}

/// Index of the first queue entry that no other entry goes before.
pub fn best_entry(open: &Vec<(u64, Location)>) -> (r: usize)
    requires
        open@.len() > 0,
    ensures
        r < open@.len(),
        forall|k: int| 0 <= k < open@.len() ==> !goes_first(#[trigger] open@[k], open@[r as int]),
        forall|k: int| 0 <= k < r ==> goes_first(open@[r as int], #[trigger] open@[k]),
{
    let mut best: usize = 0;
    let mut i: usize = 1;
    while i < open.len()
        invariant
            open@.len() > 0,
            best < i <= open@.len(),
            forall|k: int| 0 <= k < i ==> !goes_first(#[trigger] open@[k], open@[best as int]),
            forall|k: int| 0 <= k < best ==> goes_first(open@[best as int], #[trigger] open@[k]),
        decreases open@.len() - i,
    {
        let a = open[i];
        let b = open[best];
        if a.0 < b.0 || (a.0 == b.0 && (a.1.x > b.1.x || (a.1.x == b.1.x && a.1.y > b.1.y))) {
            best = i;
        }
        i += 1;
    }
    best
}

/// Index of the record of `key`, if there is one.
pub fn position(came_from: &Vec<(Location, Location)>, key: &Location) -> (r: Option<usize>)
    ensures
        match r {
            Some(i) => i < came_from@.len() && came_from@[i as int].0 == *key,
            None => forall|j: int| 0 <= j < came_from@.len() ==> (#[trigger] came_from@[j]).0 != *key,
        },
{
    let mut i: usize = 0;
    while i < came_from.len()
        invariant
            0 <= i <= came_from@.len(),
            forall|j: int| 0 <= j < i ==> (#[trigger] came_from@[j]).0 != *key,
        decreases came_from@.len() - i,
    {
        if came_from[i].0 == *key {
            return Some(i);
        }
        i += 1;
    }
    None
}

/// Some entry of `came_from` records `key`.
pub open spec fn recorded(came_from: Seq<(Location, Location)>, key: Location) -> bool {
    exists|j: int| 0 <= j < came_from.len() && (#[trigger] came_from[j]).0 == key
}

/// Index of the record of `key`, which is known to be recorded.
fn index_of(came_from: &Vec<(Location, Location)>, key: &Location) -> (r: usize)
    requires
        recorded(came_from@, *key),
    ensures
        r < came_from@.len(),
        came_from@[r as int].0 == *key,
{
    let mut i: usize = 0;
    while i < came_from.len()
        invariant
            0 <= i <= came_from@.len(),
            recorded(came_from@, *key),
            forall|j: int| 0 <= j < i ==> (#[trigger] came_from@[j]).0 != *key,
        decreases came_from@.len() - i,
    {
        if came_from[i].0 == *key {
            return i;
        }
        i += 1;
    }
    proof {
        let j = choose|j: int| 0 <= j < came_from@.len() && (#[trigger] came_from@[j]).0 == *key;
        assert(came_from@[j].0 != *key);
    }
    0
}

/// Changing the predecessor of a recorded cell keeps the same cells recorded.
proof fn lemma_recorded_after_set(came_from: Seq<(Location, Location)>, i: int, e: (Location, Location))
    requires
        0 <= i < came_from.len(),
        came_from[i].0 == e.0,
    ensures
        forall|l: Location| recorded(came_from, l) ==> #[trigger] recorded(came_from.update(i, e), l),
{
    assert forall|l: Location| recorded(came_from, l) implies #[trigger] recorded(
        came_from.update(i, e),
        l,
    ) by {
        let j = choose|j: int| 0 <= j < came_from.len() && (#[trigger] came_from[j]).0 == l;
        assert(came_from.update(i, e)[j].0 == l);
    }
}

/// Appending an entry keeps every recorded cell recorded and records the new one.
proof fn lemma_recorded_after_push(came_from: Seq<(Location, Location)>, e: (Location, Location))
    ensures
        forall|l: Location| recorded(came_from, l) ==> #[trigger] recorded(came_from.push(e), l),
        recorded(came_from.push(e), e.0),
{
    assert forall|l: Location| recorded(came_from, l) implies #[trigger] recorded(
        came_from.push(e),
        l,
    ) by {
        let j = choose|j: int| 0 <= j < came_from.len() && (#[trigger] came_from[j]).0 == l;
        assert(came_from.push(e)[j].0 == l);
    }
    assert(came_from.push(e)[came_from.len() as int].0 == e.0);
}

/// `e.0` is one of the jump points that a scan from `e.1` finds, for some parent of `e.1`.
pub open spec fn linked(grid: Grid, goal: Location, e: (Location, Location)) -> bool {
    exists|p: Option<Location>| #[trigger] successors_spec(grid, e.1, p, goal).contains(e.0)
}

/// Some queue entry is for `c`.
pub open spec fn pending(open: Seq<(u64, Location)>, c: Location) -> bool {
    exists|k: int| 0 <= k < open.len() && (#[trigger] open[k]).1 == c
}

/// The parent that expanding entry `i` uses: none for the start, else its predecessor.
pub open spec fn parent_of(came_from: Seq<(Location, Location)>, i: int) -> Option<Location> {
    if i == 0 {
        None
    } else {
        Some(came_from[i].1)
    }
}

/// Every successor of the cell of entry `i`, taken with its recorded parent, is recorded.
pub open spec fn expanded(
    grid: Grid,
    goal: Location,
    came_from: Seq<(Location, Location)>,
    i: int,
) -> bool {
    let succ = successors_spec(grid, came_from[i].0, parent_of(came_from, i), goal);
    forall|k: int| 0 <= k < succ.len() ==> recorded(came_from, #[trigger] succ[k])
}

/// Expansion survives any change that keeps entry `i` and every recorded cell.
proof fn lemma_expanded_kept(
    grid: Grid,
    goal: Location,
    came_from: Seq<(Location, Location)>,
    later: Seq<(Location, Location)>,
    i: int,
)
    requires
        0 <= i < came_from.len(),
        i < later.len(),
        later[i] == came_from[i],
        expanded(grid, goal, came_from, i),
        forall|l: Location| recorded(came_from, l) ==> #[trigger] recorded(later, l),
    ensures
        expanded(grid, goal, later, i),
{
    let succ = successors_spec(grid, came_from[i].0, parent_of(came_from, i), goal);
    assert(parent_of(later, i) == parent_of(came_from, i));
    assert forall|k: int| 0 <= k < succ.len() implies recorded(later, #[trigger] succ[k]) by {
        assert(recorded(came_from, succ[k]));
    }
}

/// A cell that was queued stays queued after another entry is pushed.
proof fn lemma_pending_push(open: Seq<(u64, Location)>, x: (u64, Location))
    ensures
        forall|c: Location| pending(open, c) ==> #[trigger] pending(open.push(x), c),
        pending(open.push(x), x.1),
{
    assert forall|c: Location| pending(open, c) implies #[trigger] pending(open.push(x), c) by {
        let k = choose|k: int| 0 <= k < open.len() && (#[trigger] open[k]).1 == c;
        assert(open.push(x)[k].1 == c);
    }
    assert(open.push(x)[open.len() as int].1 == x.1);
}

/// A cell queued in an entry other than `b` stays queued when entry `b` is taken out.
proof fn lemma_pending_remove(open: Seq<(u64, Location)>, b: int, c: Location)
    requires
        0 <= b < open.len(),
        pending(open, c),
        open[b].1 != c,
    ensures
        pending(open.remove(b), c),
{
    let k = choose|k: int| 0 <= k < open.len() && (#[trigger] open[k]).1 == c;
    if k < b {
        assert(open.remove(b)[k].1 == c);
    } else {
        assert(open.remove(b)[k - 1].1 == c);
    }
}

/// Recording one cell (a new entry, or a new predecessor at entry `changed`, which
/// is then queued) keeps every other entry queued or expanded.
proof fn lemma_step_keeps(
    grid: Grid,
    goal: Location,
    came_from: Seq<(Location, Location)>,
    later: Seq<(Location, Location)>,
    open: Seq<(u64, Location)>,
    open_later: Seq<(u64, Location)>,
    ci: int,
    changed: int,
)
    requires
        came_from.len() <= later.len() <= came_from.len() + 1,
        0 <= changed < later.len(),
        later.len() > came_from.len() ==> changed == came_from.len(),
        forall|i: int| 0 <= i < came_from.len() && i != changed ==> later[i] == came_from[i],
        pending(open_later, later[changed].0),
        forall|l: Location| recorded(came_from, l) ==> #[trigger] recorded(later, l),
        forall|c: Location| pending(open, c) ==> #[trigger] pending(open_later, c),
        forall|i: int|
            0 <= i < came_from.len() && i != ci ==> pending(open, (#[trigger] came_from[i]).0)
                || expanded(grid, goal, came_from, i),
    ensures
        forall|i: int|
            0 <= i < later.len() && i != ci ==> pending(open_later, (#[trigger] later[i]).0)
                || expanded(grid, goal, later, i),
{
    assert forall|i: int| 0 <= i < later.len() && i != ci implies pending(
        open_later,
        (#[trigger] later[i]).0,
    ) || expanded(grid, goal, later, i) by {
        if i != changed {
            assert(later[i] == came_from[i]);
            if pending(open, came_from[i].0) {
            } else {
                lemma_expanded_kept(grid, goal, came_from, later, i);
            }
        }
    }
}

/// A predecessor list as a search leaves it: the start first, with itself as
/// predecessor; then distinct open cells in bounds, other than the start, each
/// a jump point that a scan from its predecessor finds. Every predecessor is
/// itself recorded and lies inside the coordinate range.
pub open spec fn came_from_ok(
    grid: Grid,
    start: Location,
    goal: Location,
    came_from: Seq<(Location, Location)>,
) -> bool {
    &&& came_from.len() >= 1
    &&& came_from[0] == (start, start)
    &&& forall|i: int, j: int| 0 <= i < j < came_from.len() ==> came_from[i].0 != came_from[j].0
    &&& forall|i: int|
        1 <= i < came_from.len() ==> grid.in_bounds(#[trigger] came_from[i].0) && grid.passable(
            came_from[i].0,
        ) && came_from[i].0 != start
    &&& forall|i: int| 0 <= i < came_from.len() ==> (#[trigger] came_from[i]).1.near(0)
    &&& forall|i: int| 0 <= i < came_from.len() ==> recorded(came_from, (#[trigger] came_from[i]).1)
    &&& forall|i: int| 1 <= i < came_from.len() ==> linked(grid, goal, #[trigger] came_from[i])
}

/// Entry `j` is ordered before entry `i`: a lower cost, or the same cost at a lower depth.
pub open spec fn below(costs: Seq<u64>, depth: Seq<nat>, j: int, i: int) -> bool {
    costs[j] < costs[i] || (costs[j] == costs[i] && depth[j] < depth[i])
}

/// Entry `j` is ordered no later than entry `i`.
pub open spec fn not_above(costs: Seq<u64>, depth: Seq<nat>, j: int, i: int) -> bool {
    costs[j] < costs[i] || (costs[j] == costs[i] && depth[j] <= depth[i])
}

/// Each entry but the start names, by index, the entry of its predecessor,
/// and that entry is ordered before it.
pub open spec fn ranked(
    came_from: Seq<(Location, Location)>,
    costs: Seq<u64>,
    depth: Seq<nat>,
    pred: Seq<int>,
) -> bool {
    &&& depth.len() == came_from.len()
    &&& pred.len() == came_from.len()
    &&& costs.len() == came_from.len()
    &&& depth[0] == 0
    &&& forall|i: int|
        1 <= i < came_from.len() ==> 0 <= #[trigger] pred[i] < came_from.len() && came_from[pred[i]].0
            == came_from[i].1 && below(costs, depth, pred[i], i)
}

/// The indices of the entries ordered no later than entry `i`.
pub open spec fn not_above_set(costs: Seq<u64>, depth: Seq<nat>, n: int, i: int) -> Set<int> {
    Set::new(|j: int| 0 <= j < n && not_above(costs, depth, j, i))
}

/// With unique keys, the predecessor found for a key is that of its entry.
proof fn lemma_lookup_unique(came_from: Seq<(Location, Location)>, i: int)
    requires
        0 <= i < came_from.len(),
        forall|a: int, b: int| 0 <= a < b < came_from.len() ==> came_from[a].0 != came_from[b].0,
    ensures
        lookup(came_from, came_from[i].0) == Some(came_from[i].1),
    decreases i,
{
    if i > 0 {
        let rest = came_from.drop_first();
        assert(came_from[0].0 != came_from[i].0);
        assert(rest[i - 1] == came_from[i]);
        lemma_lookup_unique(rest, i - 1);
    }
}

/// In a ranked list the chain of predecessors from entry `i` reaches the start
/// within as many steps as there are entries ordered no later than it, less one.
proof fn lemma_ranked_chain(
    grid: Grid,
    start: Location,
    goal: Location,
    came_from: Seq<(Location, Location)>,
    costs: Seq<u64>,
    depth: Seq<nat>,
    pred: Seq<int>,
    i: int,
    fuel: nat,
)
    requires
        came_from_ok(grid, start, goal, came_from),
        records_ok(grid, start, came_from, costs),
        ranked(came_from, costs, depth, pred),
        0 <= i < came_from.len(),
        fuel + 1 >= not_above_set(costs, depth, came_from.len() as int, i).len(),
    ensures
        chain_back(came_from, start, came_from[i].0, fuel) is Some,
    decreases fuel,
{
    let n = came_from.len() as int;
    let si = not_above_set(costs, depth, n, i);
    vstd::set_lib::lemma_int_range(0, n);
    vstd::set_lib::lemma_len_subset(si, vstd::set_lib::set_int_range(0, n));
    if i != 0 {
        let p = pred[i];
        let sp = not_above_set(costs, depth, n, p);
        assert(si.contains(0));
        assert(si.contains(i));
        assert(si.remove(i).contains(0));
        assert(si.remove(i).len() == si.len() - 1);
        assert(si.remove(i).len() >= 1) by {
            vstd::set_lib::lemma_len_subset(set![0int], si.remove(i));
        }
        assert(sp.subset_of(si.remove(i)));
        vstd::set_lib::lemma_len_subset(sp, si.remove(i));
        lemma_lookup_unique(came_from, i);
        lemma_ranked_chain(grid, start, goal, came_from, costs, depth, pred, p, (fuel - 1) as nat);
    }
}

/// In a ranked list every chain of predecessors reaches the start.
proof fn lemma_ranked_chains(
    grid: Grid,
    start: Location,
    goal: Location,
    came_from: Seq<(Location, Location)>,
    costs: Seq<u64>,
    depth: Seq<nat>,
    pred: Seq<int>,
)
    requires
        came_from_ok(grid, start, goal, came_from),
        records_ok(grid, start, came_from, costs),
        ranked(came_from, costs, depth, pred),
    ensures
        forall|i: int|
            0 <= i < came_from.len() ==> chain_back(came_from, start, #[trigger] came_from[i].0, came_from.len() as nat) is Some,
{
    let n = came_from.len() as int;
    vstd::set_lib::lemma_int_range(0, n);
    assert forall|i: int| 0 <= i < came_from.len() implies chain_back(
        came_from,
        start,
        #[trigger] came_from[i].0,
        came_from.len() as nat,
    ) is Some by {
        vstd::set_lib::lemma_len_subset(
            not_above_set(costs, depth, n, i),
            vstd::set_lib::set_int_range(0, n),
        );
        lemma_ranked_chain(grid, start, goal, came_from, costs, depth, pred, i, came_from.len() as nat);
    }
}

/// Giving entry `ni` a lower cost and a predecessor at entry `ci`, whose cost
/// is no higher, keeps the list ranked.
proof fn lemma_ranked_update(
    costs: Seq<u64>,
    came_from: Seq<(Location, Location)>,
    depth: Seq<nat>,
    pred: Seq<int>,
    ni: int,
    ci: int,
    e: (Location, Location),
    v: u64,
)
    requires
        ranked(came_from, costs, depth, pred),
        0 < ni < came_from.len(),
        0 <= ci < came_from.len(),
        ni != ci,
        e.0 == came_from[ni].0,
        e.1 == came_from[ci].0,
        costs[ci] <= v < costs[ni],
    ensures
        ranked(
            came_from.update(ni, e),
            costs.update(ni, v),
            depth.update(ni, depth[ci] + 1),
            pred.update(ni, ci),
        ),
{
    let c2 = came_from.update(ni, e);
    let k2 = costs.update(ni, v);
    let d2 = depth.update(ni, depth[ci] + 1);
    let p2 = pred.update(ni, ci);
    assert forall|i: int| 1 <= i < c2.len() implies 0 <= #[trigger] p2[i] < c2.len() && c2[p2[i]].0
        == c2[i].1 && below(k2, d2, p2[i], i) by {
        if i != ni {
            assert(p2[i] == pred[i]);
            assert(below(costs, depth, pred[i], i));
            assert(c2[p2[i]].0 == came_from[pred[i]].0);
        }
    }
}

/// Appending an entry whose predecessor is at entry `ci`, with no lower cost, keeps the list ranked.
proof fn lemma_ranked_push(
    costs: Seq<u64>,
    came_from: Seq<(Location, Location)>,
    depth: Seq<nat>,
    pred: Seq<int>,
    ci: int,
    e: (Location, Location),
    v: u64,
)
    requires
        ranked(came_from, costs, depth, pred),
        0 <= ci < came_from.len(),
        e.1 == came_from[ci].0,
        costs[ci] <= v,
    ensures
        ranked(came_from.push(e), costs.push(v), depth.push(depth[ci] + 1), pred.push(ci)),
{
    let c2 = came_from.push(e);
    let k2 = costs.push(v);
    let d2 = depth.push(depth[ci] + 1);
    let p2 = pred.push(ci);
    assert forall|i: int| 1 <= i < c2.len() implies 0 <= #[trigger] p2[i] < c2.len() && c2[p2[i]].0
        == c2[i].1 && below(k2, d2, p2[i], i) by {
        if i < came_from.len() {
            assert(p2[i] == pred[i]);
            assert(below(costs, depth, pred[i], i));
        }
    }
}

/// Jump point search from `start` towards `goal`. `cost(a, b)` serves both as
/// the cost of the straight move between two jump points and as the estimate
/// of what is left from `a` to `b`; it should be a metric for both roles. The
/// result pairs each recorded jump point with the jump point it was reached
/// from, the start with itself. The search ends when the goal is taken from
/// the queue, which leaves the goal recorded, or when the queue runs empty,
/// which leaves every successor of every recorded jump point recorded. The
/// chain of predecessors from every recorded cell leads back to the start, so
/// the records form a tree; a goal equal to the start is taken first and
/// leaves the start as the only record. Costs
/// add up with saturation at `u64::MAX`; equal estimates go to the
/// lexicographically greater cell first.
#[verifier::rlimit(100)]
pub fn jps<F: Fn(Location, Location) -> u64>(
    grid: &Grid,
    start: &Location,
    goal: &Location,
    cost: F,
) -> (r: Vec<(Location, Location)>)
    requires
        grid.wf(),
        start.near(0),
        forall|a: Location, b: Location| cost.requires((a, b)),
    ensures
        came_from_ok(*grid, *start, *goal, r@),
        recorded(r@, *goal) || forall|i: int| 0 <= i < r@.len() ==> expanded(*grid, *goal, r@, i),
        *start == *goal ==> r@ == seq![(*start, *start)],
        forall|i: int|
            0 <= i < r@.len() ==> chain_back(r@, *start, #[trigger] r@[i].0, r@.len() as nat) is Some,
{
    let mut came_from: Vec<(Location, Location)> = Vec::new();
    let mut costs: Vec<u64> = Vec::new();
    let mut open: Vec<(u64, Location)> = Vec::new();
    came_from.push((*start, *start));
    costs.push(0);
    open.push((0, *start));
    assert(open@[0].1 == *start);
    assert(came_from@[0].0 == *start);
    assert(recorded(came_from@, *start));
    assert(came_from@ =~= seq![(*start, *start)]);
    assert(open@ =~= seq![(0u64, *start)]);
    let ghost mut depth: Seq<nat> = seq![0nat];
    let ghost mut pred: Seq<int> = seq![0int];
    while open.len() > 0
        invariant
            grid.wf(),
            start.near(0),
            forall|a: Location, b: Location| cost.requires((a, b)),
            records_ok(*grid, *start, came_from@, costs@),
            came_from_ok(*grid, *start, *goal, came_from@),
            forall|k: int| 0 <= k < open@.len() ==> recorded(came_from@, (#[trigger] open@[k]).1),
            *start == *goal ==> came_from@ == seq![(*start, *start)] && open@ == seq![(0u64, *start)],
            ranked(came_from@, costs@, depth, pred),
            forall|i: int|
                0 <= i < came_from@.len() ==> pending(open@, (#[trigger] came_from@[i]).0) || expanded(
                    *grid,
                    *goal,
                    came_from@,
                    i,
                ),
        decreases potential(*grid, came_from@.len() as int, costs@), open@.len(),
    {
        proof {
            lemma_records_bound(*grid, *start, came_from@, costs@);
        }
        let b = best_entry(&open);
        let ghost queued = open@;
        let entry = open.remove(b);
        let current = entry.1;
        assert(*start == *goal ==> b == 0 && current == *goal);
        assert(recorded(came_from@, queued[b as int].1));
        if current == *goal {
            proof {
                lemma_ranked_chains(*grid, *start, *goal, came_from@, costs@, depth, pred);
            }
            return came_from;
        }
        assert forall|k: int| 0 <= k < open@.len() implies recorded(
            came_from@,
            (#[trigger] open@[k]).1,
        ) by {
            if k < b {
                assert(open@[k] == queued[k]);
            } else {
                assert(open@[k] == queued[k + 1]);
            }
        }
        let ci = index_of(&came_from, &current);
        assert(ci == 0 ==> came_from@[ci as int].0 == *start);
        assert(ci > 0 ==> grid.in_bounds(came_from@[ci as int].0));
        assert forall|i: int|
            0 <= i < came_from@.len() && i != ci implies pending(
                open@,
                (#[trigger] came_from@[i]).0,
            ) || expanded(*grid, *goal, came_from@, i) by {
            if pending(queued, came_from@[i].0) {
                assert(came_from@[i].0 != came_from@[ci as int].0);
                lemma_pending_remove(queued, b as int, came_from@[i].0);
            }
        }
        // The start is taken from the queue only once, first, and has no parent.
        let parent: Option<Location> = if current == *start {
            None
        } else {
            Some(came_from[ci].1)
        };
        let succ = successors(grid, &current, parent, goal);
        let current_cost = costs[ci];
        let ghost pot0 = potential(*grid, came_from@.len() as int, costs@);
        let ghost len0 = open@.len();
        let ghost came0 = came_from@;
        assert(parent == parent_of(came0, ci as int));
        let mut j: usize = 0;
        while j < succ.len()
            invariant
                grid.wf(),
                start.near(0),
                forall|a: Location, b: Location| cost.requires((a, b)),
                records_ok(*grid, *start, came_from@, costs@),
                came_from_ok(*grid, *start, *goal, came_from@),
                parent matches Some(p) ==> p.near(0),
                current.near(0),
                succ@ == successors_spec(*grid, current, parent, *goal),
                recorded(came_from@, current),
                ci < came_from@.len(),
                ci < came0.len(),
                came_from@[ci as int].0 == current,
                ranked(came_from@, costs@, depth, pred),
                costs@[ci as int] == current_cost,
                parent == parent_of(came0, ci as int),
                came_from@[ci as int] == came0[ci as int] || pending(open@, current),
                forall|k: int| 0 <= k < j ==> recorded(came_from@, #[trigger] succ@[k]),
                forall|i: int|
                    0 <= i < came_from@.len() && i != ci ==> pending(
                        open@,
                        (#[trigger] came_from@[i]).0,
                    ) || expanded(*grid, *goal, came_from@, i),
                forall|k: int| 0 <= k < open@.len() ==> recorded(came_from@, (#[trigger] open@[k]).1),
                0 <= j <= succ@.len(),
                forall|k: int|
                    0 <= k < succ@.len() ==> grid.in_bounds(#[trigger] succ@[k]) && grid.passable(
                        succ@[k],
                    ),
                potential(*grid, came_from@.len() as int, costs@) < pot0 || (potential(
                    *grid,
                    came_from@.len() as int,
                    costs@,
                ) == pot0 && open@.len() == len0),
            decreases succ@.len() - j,
        {
            let next = succ[j];
            assert(linked(*grid, *goal, (next, current))) by {
                let e = (next, current);
                assert(succ@[j as int] == next);
                assert(successors_spec(*grid, e.1, parent, *goal).contains(e.0));
            }
            let step = cost(current, next);
            let new_cost = current_cost.saturating_add(step);
            match position(&came_from, &next) {
                Some(ni) => {
                    if new_cost < costs[ni] {
                        proof {
                            lemma_total_update(costs@, ni as int, new_cost);
                            lemma_recorded_after_set(came_from@, ni as int, (next, current));
                            assert(came_from@.update(ni as int, (next, current))[ni as int].0 == next);
                        }
                        let ghost c_before = came_from@;
                        let ghost o_before = open@;
                        let ghost k_before = costs@;
                        let ghost d_before = depth;
                        let ghost p_before = pred;
                        assert(ni != ci && ni != 0);
                        costs.set(ni, new_cost);
                        came_from.set(ni, (next, current));
                        proof {
                            lemma_ranked_update(k_before, c_before, d_before, p_before, ni as int, ci as int, (next, current), new_cost);
                            depth = depth.update(ni as int, depth[ci as int] + 1);
                            pred = pred.update(ni as int, ci as int);
                        }
                        let estimate = cost(next, *goal);
                        let item = (new_cost.saturating_add(estimate), next);
                        proof {
                            lemma_pending_push(o_before, item);
                        }
                        open.push(item);
                        proof {
                            lemma_step_keeps(
                                *grid,
                                *goal,
                                c_before,
                                came_from@,
                                o_before,
                                open@,
                                ci as int,
                                ni as int,
                            );
                        }
                    }
                },
                None => {
                    proof {
                        lemma_total_push(costs@, new_cost);
                        lemma_recorded_after_push(came_from@, (next, current));
                    }
                    let ghost c_before = came_from@;
                    let ghost o_before = open@;
                    let ghost k_before = costs@;
                    let ghost d_before = depth;
                    let ghost p_before = pred;
                    came_from.push((next, current));
                    costs.push(new_cost);
                    proof {
                        lemma_ranked_push(k_before, c_before, d_before, p_before, ci as int, (next, current), new_cost);
                        depth = depth.push(depth[ci as int] + 1);
                        pred = pred.push(ci as int);
                    }
                    let estimate = cost(next, *goal);
                    let item = (new_cost.saturating_add(estimate), next);
                    proof {
                        lemma_pending_push(o_before, item);
                    }
                    open.push(item);
                    proof {
                        lemma_step_keeps(
                            *grid,
                            *goal,
                            c_before,
                            came_from@,
                            o_before,
                            open@,
                            ci as int,
                            c_before.len() as int,
                        );
                    }
                },
            }
            j += 1;
        }
        proof {
            lemma_records_bound(*grid, *start, came_from@, costs@);
            if came_from@[ci as int] == came0[ci as int] {
                assert(parent_of(came_from@, ci as int) == parent);
                assert forall|k: int|
                    0 <= k < succ@.len() implies recorded(came_from@, #[trigger] succ@[k]) by {}
                assert(expanded(*grid, *goal, came_from@, ci as int));
            }
        }
    }
    proof {
        lemma_ranked_chains(*grid, *start, *goal, came_from@, costs@, depth, pred);
    }
    came_from
}

/// A search never records a goal that is a wall or lies off the grid, so such
/// a goal, other than the start, gets an empty path.
pub proof fn lemma_blocked_goal_has_no_path(
    grid: Grid,
    start: Location,
    goal: Location,
    came_from: Seq<(Location, Location)>,
)
    requires
        came_from_ok(grid, start, goal, came_from),
        goal != start,
        !grid.in_bounds(goal) || !grid.passable(goal),
    ensures
        path_spec(start, goal, came_from) == Seq::<Location>::empty(),
{
    assert forall|j: int| 0 <= j < came_from.len() implies (#[trigger] came_from[j]).0 != goal by {
        if j > 0 {
            assert(grid.in_bounds(came_from[j].0) && grid.passable(came_from[j].0));
        }
    }
    lemma_lookup_absent(came_from, goal);
}

/// `region` is closed under scans: every jump point that a scan from one of its
/// cells finds, whatever the parent, lies in it too.
pub open spec fn closed_region(grid: Grid, goal: Location, region: Set<Location>) -> bool {
    forall|c: Location, p: Option<Location>, k: int|
        region.contains(c) && 0 <= k < successors_spec(grid, c, p, goal).len() ==> region.contains(
            #[trigger] successors_spec(grid, c, p, goal)[k],
        )
}

/// Every cell on a chain of predecessors back to the start lies in a closed region.
proof fn lemma_chain_in_region(
    grid: Grid,
    start: Location,
    goal: Location,
    came_from: Seq<(Location, Location)>,
    region: Set<Location>,
    current: Location,
    fuel: nat,
)
    requires
        came_from_ok(grid, start, goal, came_from),
        region.contains(start),
        closed_region(grid, goal, region),
        chain_back(came_from, start, current, fuel) is Some,
    ensures
        region.contains(current),
    decreases fuel,
{
    if current != start {
        let prev = lookup(came_from, current)->0;
        lemma_chain_in_region(grid, start, goal, came_from, region, prev, (fuel - 1) as nat);
        lemma_lookup_found(came_from, current);
        let i = choose|i: int| 0 <= i < came_from.len() && #[trigger] came_from[i] == (current, prev);
        assert(i != 0);
        assert(linked(grid, goal, came_from[i]));
        let p = choose|p: Option<Location>| #[trigger] successors_spec(grid, prev, p, goal).contains(
            current,
        );
        let k = choose|k: int|
            0 <= k < successors_spec(grid, prev, p, goal).len() && successors_spec(grid, prev, p, goal)[k]
                == current;
        assert(region.contains(successors_spec(grid, prev, p, goal)[k]));
    }
}

/// A goal outside a region that holds the start and is closed under scans
/// cannot be reached, and a search result gives it an empty path.
pub proof fn lemma_unreachable_goal_has_no_path(
    grid: Grid,
    start: Location,
    goal: Location,
    came_from: Seq<(Location, Location)>,
    region: Set<Location>,
)
    requires
        came_from_ok(grid, start, goal, came_from),
        region.contains(start),
        !region.contains(goal),
        closed_region(grid, goal, region),
    ensures
        path_spec(start, goal, came_from) == Seq::<Location>::empty(),
{
    if chain_back(came_from, start, goal, came_from.len()) is Some {
        lemma_chain_in_region(grid, start, goal, came_from, region, goal, came_from.len());
    }
}

} // verus!
