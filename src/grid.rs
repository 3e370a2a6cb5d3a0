use vstd::prelude::*;

use crate::location::{COORD_LIMIT, Location};

verus! {

/// The eight unit steps: east, west, north, south, then the four diagonals.
pub open spec fn all_dirs_spec() -> Seq<Location> {
    seq![
        Location { x: 1, y: 0 },
        Location { x: -1i32, y: 0 },
        Location { x: 0, y: -1i32 },
        Location { x: 0, y: 1 },
        Location { x: 1, y: 1 },
        Location { x: -1i32, y: 1 },
        Location { x: 1, y: -1i32 },
        Location { x: -1i32, y: -1i32 },
    ]
}

/// The eight unit steps, in the order of `all_dirs_spec`.
pub fn all_dirs() -> (r: Vec<Location>)
    ensures
        r@ == all_dirs_spec(),
{
    let r = vec![
        Location { x: 1, y: 0 },
        Location { x: -1, y: 0 },
        Location { x: 0, y: -1 },
        Location { x: 0, y: 1 },
        Location { x: 1, y: 1 },
        Location { x: -1, y: 1 },
        Location { x: 1, y: -1 },
        Location { x: -1, y: -1 },
    ];
    assert(r@ =~= all_dirs_spec());
    r
}

/// A rectangular map of `width` by `height` cells with blocked cells.
pub struct Grid {
    width: u32,
    height: u32,
    /// Blocked cells; those outside the rectangle have no effect on bounds.
    walls: Vec<Location>,
}

impl Grid {
    /// Positive dimensions, small enough that cell arithmetic stays inside `i32`.
    pub open spec fn wf(&self) -> bool {
        0 < self.spec_width() <= COORD_LIMIT && 0 < self.spec_height() <= COORD_LIMIT
    }

    pub closed spec fn spec_width(&self) -> u32 {
        self.width
    }

    /// The blocked cells.
    pub closed spec fn spec_walls(&self) -> Seq<Location> {
        self.walls@
    }

    pub closed spec fn spec_height(&self) -> u32 {
        self.height
    }

    pub open spec fn in_bounds(&self, loc: Location) -> bool {
        0 <= loc.x < self.spec_width() && 0 <= loc.y < self.spec_height()
    }

    pub open spec fn passable(&self, loc: Location) -> bool {
        !self.spec_walls().contains(loc)
    }

    /// Moving by `dir` from `loc` lands in bounds on an open cell, and a
    /// diagonal move has at least one of its two orthogonal parts open.
    pub open spec fn valid_move(&self, loc: Location, dir: Location) -> bool {
        let next = loc.spec_add(dir);
        &&& self.in_bounds(next)
        &&& self.passable(next)
        &&& dir.is_diagonal() ==> (self.passable(loc.spec_add(Location { x: dir.x, y: 0 }))
            || self.passable(loc.spec_add(Location { x: 0, y: dir.y })))
    }

    /// Reaching `loc` from `parent` is a forced branch for a scan along `travel_dir`.
    pub open spec fn forced(loc: Location, parent: Location, travel_dir: Location) -> bool {
        let dir = loc.spec_sub(parent).spec_direction();
        if travel_dir.is_diagonal() {
            (dir.x == travel_dir.x && dir.y == -travel_dir.y) || (dir.x == -travel_dir.x && dir.y
                == travel_dir.y)
        } else {
            dir.is_diagonal()
        }
    }

    /// The cells `current + d` for the directions `d` of `dirs` that are valid moves, in order.
    pub open spec fn neighbours_spec(&self, current: Location, dirs: Seq<Location>) -> Seq<
        Location,
    >
        decreases dirs.len(),
    {
        if dirs.len() == 0 {
            seq![]
        } else {
            let d = dirs.last();
            let rest = self.neighbours_spec(current, dirs.drop_last());
            if self.valid_move(current, d) {
                rest.push(current.spec_add(d))
            } else {
                rest
            }
        }
    }

    /// A forced neighbour: `from + step` when the move `blocked` from `from` is
    /// invalid and the move `step` is valid.
    pub open spec fn forced_extra(&self, from: Location, blocked: Location, step: Location) -> Seq<
        Location,
    > {
        if !self.valid_move(from, blocked) && self.valid_move(from, step) {
            seq![from.spec_add(step)]
        } else {
            seq![]
        }
    }

    /// The pruned neighbour set of `current` reached from `parent`.
    pub open spec fn pruned_spec(&self, current: Location, parent: Option<Location>) -> Seq<
        Location,
    > {
        match parent {
            None => self.neighbours_spec(current, all_dirs_spec()),
            Some(p) => {
                let dir = current.spec_sub(p).spec_direction();
                if dir.is_diagonal() {
                    let previous = current.spec_sub(dir);
                    let dx = Location { x: dir.x, y: 0 };
                    let dy = Location { x: 0, y: dir.y };
                    self.neighbours_spec(current, seq![dir, dx, dy]) + self.forced_extra(
                        previous,
                        dx,
                        dx.spec_scale(2),
                    ) + self.forced_extra(previous, dy, dy.spec_scale(2))
                } else {
                    let inv = Location { x: dir.y, y: dir.x };
                    let neg = Location { x: (-dir.y) as i32, y: (-dir.x) as i32 };
                    self.neighbours_spec(current, seq![dir]) + self.forced_extra(
                        current,
                        inv,
                        inv.spec_add(dir),
                    ) + self.forced_extra(current, neg, neg.spec_add(dir))
                }
            },
        }
    }

    pub fn new(width: u32, height: u32, walls: Vec<Location>) -> (r: Grid)
        requires
            0 < width <= COORD_LIMIT,
            0 < height <= COORD_LIMIT,
        ensures
            r.wf(),
            r.spec_width() == width,
            r.spec_height() == height,
            r.spec_walls() == walls@,
    {
        Grid { width, height, walls }
    }

    pub fn get_width(&self) -> (r: u32)
        ensures
            r == self.spec_width(),
    {
        self.width
    }

    pub fn get_height(&self) -> (r: u32)
        ensures
            r == self.spec_height(),
    {
        self.height
    }

    /// The blocked cells, as given to `new`.
    pub fn get_walls(&self) -> (r: &Vec<Location>)
        ensures
            r@ == self.spec_walls(),
    {
        &self.walls
    }

    pub fn is_in_bounds(&self, loc: &Location) -> (r: bool)
        requires
            self.wf(),
        ensures
            r == self.in_bounds(*loc),
    {
        0 <= loc.x && loc.x < self.width as i32 && 0 <= loc.y && loc.y < self.height as i32
    }

    pub fn is_passable(&self, loc: &Location) -> (r: bool)
        ensures
            r == self.passable(*loc),
    {
        let mut i: usize = 0;
        while i < self.walls.len()
            invariant
                0 <= i <= self.walls@.len(),
                forall|j: int| 0 <= j < i ==> self.walls@[j] != *loc,
            decreases self.walls@.len() - i,
        {
            if self.walls[i] == *loc {
                return false;
            }
            i += 1;
        }
        true
    }

    /// Whether the step `dir` (components within [-2, 2]) from `loc` is allowed.
    pub fn is_valid_move(&self, loc: &Location, dir: &Location) -> (r: bool)
        requires
            self.wf(),
            loc.near(4),
            -2 <= dir.x <= 2,
            -2 <= dir.y <= 2,
        ensures
            r == self.valid_move(*loc, *dir),
    {
        let next = loc.add(dir);
        if dir.x != 0 && dir.y != 0 {
            return self.is_in_bounds(&next) && self.is_passable(&next) && (self.is_passable(
                &loc.add(&Location { x: dir.x, y: 0 }),
            ) || self.is_passable(&loc.add(&Location { x: 0, y: dir.y })));
        }
        self.is_in_bounds(&next) && self.is_passable(&next)
    }

    pub fn is_forced(&self, loc: &Location, parent: &Location, travel_dir: &Location) -> (r: bool)
        requires
            i32::MIN <= loc.x - parent.x <= i32::MAX,
            i32::MIN <= loc.y - parent.y <= i32::MAX,
        ensures
            r == Self::forced(*loc, *parent, *travel_dir),
    {
        let dir = loc.subtract(parent).direction();
        if travel_dir.x != 0 && travel_dir.y != 0 {
            // `dir` is a unit step, so it never equals the negation of `i32::MIN`.
            (dir.x == travel_dir.x && travel_dir.y != i32::MIN && dir.y == -travel_dir.y) || (
            travel_dir.x != i32::MIN && dir.x == -travel_dir.x && dir.y == travel_dir.y)
        } else {
            dir.x != 0 && dir.y != 0
        }
    }

    /// The cells reached by the valid moves among `dirs`, in the order of `dirs`.
    pub fn neighbours(&self, current: &Location, dirs: &[Location]) -> (r: Vec<Location>)
        requires
            self.wf(),
            current.near(4),
            forall|i: int| 0 <= i < dirs@.len() ==> (#[trigger] dirs@[i]).is_unit(),
        ensures
            r@ == self.neighbours_spec(*current, dirs@),
    {
        let mut results: Vec<Location> = Vec::new();
        let mut i: usize = 0;
        while i < dirs.len()
            invariant
                self.wf(),
                current.near(4),
                forall|k: int| 0 <= k < dirs@.len() ==> (#[trigger] dirs@[k]).is_unit(),
                0 <= i <= dirs@.len(),
                results@ == self.neighbours_spec(*current, dirs@.take(i as int)),
            decreases dirs@.len() - i,
        {
            let dir = dirs[i];
            assert(dirs@.take(i as int + 1).drop_last() =~= dirs@.take(i as int));
            if self.is_valid_move(current, &dir) {
                results.push(current.add(&dir));
            }
            i += 1;
        }
        assert(dirs@.take(dirs@.len() as int) =~= dirs@);
        results
    }

    /// The pruned neighbour set: every valid neighbour at the start of a search,
    /// otherwise the natural neighbours along the travel direction followed by
    /// the forced neighbours that obstacles create.
    pub fn pruned_neighbours(&self, current: &Location, parent: Option<Location>) -> (r: Vec<
        Location,
    >)
        requires
            self.wf(),
            current.near(0),
            parent matches Some(p) ==> i32::MIN <= current.x - p.x <= i32::MAX && i32::MIN
                <= current.y - p.y <= i32::MAX,
        ensures
            r@ == self.pruned_spec(*current, parent),
            forall|i: int| 0 <= i < r@.len() ==> self.in_bounds(#[trigger] r@[i]),
    {
        proof {
            self.lemma_pruned_in_bounds(*current, parent);
        }
        if parent.is_none() {
            let dirs = all_dirs();
            return self.neighbours(current, dirs.as_slice());
        }
        let p = parent.unwrap();
        let dir = current.subtract(&p).direction();
        if dir.x != 0 && dir.y != 0 {
            let previous = current.subtract(&dir);
            let dir_x = Location { x: dir.x, y: 0 };
            let dir_y = Location { x: 0, y: dir.y };
            let natural = vec![dir, dir_x, dir_y];
            assert(natural@ =~= seq![dir, dir_x, dir_y]);
            let mut current_neighbours = self.neighbours(current, natural.as_slice());
            let ghost base = current_neighbours@;
            let two_x = dir_x.scale(2);
            if !self.is_valid_move(&previous, &dir_x) && self.is_valid_move(&previous, &two_x) {
                current_neighbours.push(previous.add(&two_x));
            }
            let ghost mid = current_neighbours@;
            assert(mid =~= base + self.forced_extra(previous, dir_x, dir_x.spec_scale(2)));
            let two_y = dir_y.scale(2);
            if !self.is_valid_move(&previous, &dir_y) && self.is_valid_move(&previous, &two_y) {
                current_neighbours.push(previous.add(&two_y));
            }
            assert(current_neighbours@ =~= mid + self.forced_extra(
                previous,
                dir_y,
                dir_y.spec_scale(2),
            ));
            proof {
                self.lemma_pruned_in_bounds(*current, parent);
                assert forall|i: int| 0 <= i < current_neighbours@.len() implies self.in_bounds(
                    #[trigger] current_neighbours@[i],
                ) by {
                    assert(current_neighbours@[i] == self.pruned_spec(*current, parent)[i]);
                }
            }
            current_neighbours
        } else {
            let natural = vec![dir];
            assert(natural@ =~= seq![dir]);
            let mut current_neighbours = self.neighbours(current, natural.as_slice());
            let ghost base = current_neighbours@;
            let inverted = Location { x: dir.y, y: dir.x };
            let step = inverted.add(&dir);
            if !self.is_valid_move(current, &inverted) && self.is_valid_move(current, &step) {
                current_neighbours.push(current.add(&step));
            }
            let ghost mid = current_neighbours@;
            assert(mid =~= base + self.forced_extra(*current, inverted, inverted.spec_add(dir)));
            let negated = inverted.negate();
            let step = negated.add(&dir);
            if !self.is_valid_move(current, &negated) && self.is_valid_move(current, &step) {
                current_neighbours.push(current.add(&step));
            }
            assert(current_neighbours@ =~= mid + self.forced_extra(
                *current,
                negated,
                negated.spec_add(dir),
            ));
            proof {
                self.lemma_pruned_in_bounds(*current, parent);
                assert forall|i: int| 0 <= i < current_neighbours@.len() implies self.in_bounds(
                    #[trigger] current_neighbours@[i],
                ) by {
                    assert(current_neighbours@[i] == self.pruned_spec(*current, parent)[i]);
                }
            }
            current_neighbours
        }
    }

    /// Every cell that `neighbours_spec` lists is in bounds.
    pub proof fn lemma_neighbours_in_bounds(&self, current: Location, dirs: Seq<Location>)
        ensures
            forall|i: int|
                0 <= i < self.neighbours_spec(current, dirs).len() ==> self.in_bounds(
                    #[trigger] self.neighbours_spec(current, dirs)[i],
                ),
        decreases dirs.len(),
    {
        if dirs.len() > 0 {
            let all = self.neighbours_spec(current, dirs);
            let rest = self.neighbours_spec(current, dirs.drop_last());
            self.lemma_neighbours_in_bounds(current, dirs.drop_last());
            assert forall|i: int| 0 <= i < all.len() implies self.in_bounds(#[trigger] all[i]) by {
                if i < rest.len() {
                    assert(all[i] == rest[i]);
                }
            }
        }
    }

    /// Every cell of the pruned neighbour set is in bounds.
    pub proof fn lemma_pruned_in_bounds(&self, current: Location, parent: Option<Location>)
        ensures
            forall|i: int|
                0 <= i < self.pruned_spec(current, parent).len() ==> self.in_bounds(
                    #[trigger] self.pruned_spec(current, parent)[i],
                ),
    {
        self.lemma_neighbours_in_bounds(current, all_dirs_spec());
        if let Some(p) = parent {
            let dir = current.spec_sub(p).spec_direction();
            let dx = Location { x: dir.x, y: 0 };
            let dy = Location { x: 0, y: dir.y };
            self.lemma_neighbours_in_bounds(current, seq![dir, dx, dy]);
            self.lemma_neighbours_in_bounds(current, seq![dir]);
        }
    }

    /// A diagonal step whose two orthogonal parts are both walls is not a
    /// valid move, even when the diagonal cell itself is open.
    pub proof fn lemma_corner_rule(&self, loc: Location, dir: Location)
        requires
            dir.is_diagonal(),
            self.spec_walls().contains(loc.spec_add(Location { x: dir.x, y: 0 })),
            self.spec_walls().contains(loc.spec_add(Location { x: 0, y: dir.y })),
        ensures
            !self.valid_move(loc, dir),
    {
    }

    /// A cell is listed by `neighbours_spec` exactly when some direction of
    /// `dirs` is a valid move from `current` that lands on it.
    pub proof fn lemma_neighbours_members(&self, current: Location, dirs: Seq<Location>, l: Location)
        ensures
            self.neighbours_spec(current, dirs).contains(l) <==> exists|i: int|
                0 <= i < dirs.len() && self.valid_move(current, #[trigger] dirs[i]) && l
                    == current.spec_add(dirs[i]),
        decreases dirs.len(),
    {
        if dirs.len() > 0 {
            let rest = dirs.drop_last();
            self.lemma_neighbours_members(current, rest, l);
            if self.neighbours_spec(current, dirs).contains(l) {
                if self.neighbours_spec(current, rest).contains(l) {
                    let i = choose|i: int|
                        0 <= i < rest.len() && self.valid_move(current, #[trigger] rest[i]) && l
                            == current.spec_add(rest[i]);
                    assert(dirs[i] == rest[i]);
                } else {
                    let all = self.neighbours_spec(current, dirs);
                    let rest_n = self.neighbours_spec(current, rest);
                    let last = dirs.len() - 1;
                    assert(dirs.last() == dirs[last]);
                    let k = choose|k: int| 0 <= k < all.len() && all[k] == l;
                    if self.valid_move(current, dirs[last]) {
                        assert(all == rest_n.push(current.spec_add(dirs[last])));
                        if k < rest_n.len() {
                            assert(all[k] == rest_n[k]);
                            assert(rest_n.contains(l));
                        }
                        assert(l == current.spec_add(dirs[last]));
                    } else {
                        assert(all == rest_n);
                        assert(rest_n.contains(l));
                    }
                }
            }
            if exists|i: int|
                0 <= i < dirs.len() && self.valid_move(current, #[trigger] dirs[i]) && l
                    == current.spec_add(dirs[i]) {
                let i = choose|i: int|
                    0 <= i < dirs.len() && self.valid_move(current, #[trigger] dirs[i]) && l
                        == current.spec_add(dirs[i]);
                let all = self.neighbours_spec(current, dirs);
                let rest_n = self.neighbours_spec(current, rest);
                if i < dirs.len() - 1 {
                    assert(rest[i] == dirs[i]);
                    let k = choose|k: int| 0 <= k < rest_n.len() && rest_n[k] == l;
                    if self.valid_move(current, dirs.last()) {
                        assert(all == rest_n.push(current.spec_add(dirs.last())));
                        assert(all[k] == l);
                    } else {
                        assert(all == rest_n);
                    }
                } else {
                    assert(dirs.last() == dirs[i]);
                    assert(all == rest_n.push(l));
                    assert(all[rest_n.len() as int] == l);
                }
            }
        }
    }

    /// Without a parent, the pruned neighbour set holds exactly the cells that
    /// one of the eight unit steps reaches by a valid move.
    pub proof fn lemma_start_neighbours(&self, current: Location, l: Location)
        ensures
            self.pruned_spec(current, None).contains(l) <==> exists|d: Location|
                #[trigger] all_dirs_spec().contains(d) && self.valid_move(current, d) && l
                    == current.spec_add(d),
    {
        self.lemma_neighbours_members(current, all_dirs_spec(), l);
        if self.pruned_spec(current, None).contains(l) {
            let i = choose|i: int|
                0 <= i < all_dirs_spec().len() && self.valid_move(current, #[trigger] all_dirs_spec()[i])
                    && l == current.spec_add(all_dirs_spec()[i]);
            assert(all_dirs_spec().contains(all_dirs_spec()[i]));
        }
        if exists|d: Location|
            #[trigger] all_dirs_spec().contains(d) && self.valid_move(current, d) && l
                == current.spec_add(d) {
            let d = choose|d: Location|
                #[trigger] all_dirs_spec().contains(d) && self.valid_move(current, d) && l
                    == current.spec_add(d);
            let i = choose|i: int| 0 <= i < all_dirs_spec().len() && all_dirs_spec()[i] == d;
            assert(self.valid_move(current, all_dirs_spec()[i]));
        }
    }
}

} // verus!
