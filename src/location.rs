use vstd::prelude::*;

verus! {

/// Largest coordinate magnitude for which the grid arithmetic stays inside `i32`.
pub const COORD_LIMIT: i32 = 0x3fff_fff0;

/// Sign of an integer: -1, 0 or 1.
pub open spec fn sign(v: i32) -> i32 {
    if v > 0 {
        1i32
    } else if v < 0 {
        -1i32
    } else {
        0i32
    }
}

/// A point (or a displacement) on the integer plane.
#[derive(Clone, Copy, Debug, PartialEq, Eq, Structural, Hash, PartialOrd, Ord)]
pub struct Location {
    pub x: i32,
    pub y: i32,
}

impl Location {
    /// Both coordinates lie within `slack` of `[-COORD_LIMIT, COORD_LIMIT]`.
    pub open spec fn near(self, slack: int) -> bool {
        -COORD_LIMIT - slack <= self.x <= COORD_LIMIT + slack && -COORD_LIMIT - slack <= self.y
            <= COORD_LIMIT + slack
    }

    /// Each component is -1, 0 or 1.
    pub open spec fn is_unit(self) -> bool {
        -1 <= self.x <= 1 && -1 <= self.y <= 1
    }

    /// A unit step that moves: each component in {-1, 0, 1}, not both zero.
    pub open spec fn is_step(self) -> bool {
        self.is_unit() && !(self.x == 0 && self.y == 0)
    }

    /// Both components are nonzero.
    pub open spec fn is_diagonal(self) -> bool {
        self.x != 0 && self.y != 0
    }

    pub open spec fn spec_direction(self) -> Location {
        Location { x: sign(self.x), y: sign(self.y) }
    }

    pub open spec fn spec_add(self, o: Location) -> Location {
        Location { x: (self.x + o.x) as i32, y: (self.y + o.y) as i32 }
    }

    pub open spec fn spec_sub(self, o: Location) -> Location {
        Location { x: (self.x - o.x) as i32, y: (self.y - o.y) as i32 }
    }

    pub open spec fn spec_scale(self, k: i32) -> Location {
        Location { x: (self.x * k) as i32, y: (self.y * k) as i32 }
    }

    /// The unit step per axis: the sign of each component.
    pub fn direction(&self) -> (r: Location)
        ensures
            r == self.spec_direction(),
            r.is_unit(),
            (r.x == 0) == (self.x == 0),
            (r.y == 0) == (self.y == 0),
    {
        let x: i32 = if self.x > 0 {
            1
        } else if self.x < 0 {
            -1
        } else {
            0
        };
        let y: i32 = if self.y > 0 {
            1
        } else if self.y < 0 {
            -1
        } else {
            0
        };
        Location { x, y }
    }

    /// Component-wise sum.
    pub fn add(&self, o: &Location) -> (r: Location)
        requires
            i32::MIN <= self.x + o.x <= i32::MAX,
            i32::MIN <= self.y + o.y <= i32::MAX,
        ensures
            r == self.spec_add(*o),
            r.x == self.x + o.x,
            r.y == self.y + o.y,
    {
        Location { x: self.x + o.x, y: self.y + o.y }
    }

    /// Component-wise difference.
    pub fn subtract(&self, o: &Location) -> (r: Location)
        requires
            i32::MIN <= self.x - o.x <= i32::MAX,
            i32::MIN <= self.y - o.y <= i32::MAX,
        ensures
            r == self.spec_sub(*o),
            r.x == self.x - o.x,
            r.y == self.y - o.y,
    {
        Location { x: self.x - o.x, y: self.y - o.y }
    }

    /// Both components multiplied by `k`.
    pub fn scale(&self, k: i32) -> (r: Location)
        requires
            i32::MIN <= self.x * k <= i32::MAX,
            i32::MIN <= self.y * k <= i32::MAX,
        ensures
            r == self.spec_scale(k),
            r.x == self.x * k,
            r.y == self.y * k,
    {
        Location { x: self.x * k, y: self.y * k }
    }

    /// Both components negated.
    pub fn negate(&self) -> (r: Location)
        requires
            self.x > i32::MIN,
            self.y > i32::MIN,
        ensures
            r.x == -self.x,
            r.y == -self.y,
    {
        Location { x: -self.x, y: -self.y }
    }
}

/// `direction` maps every vector to one whose components lie in {-1, 0, 1}
/// and vanish exactly where the input's components vanish.
pub proof fn lemma_direction_is_unit(v: Location)
    ensures
        v.spec_direction().is_unit(),
        (v.spec_direction().x == 0) == (v.x == 0),
        (v.spec_direction().y == 0) == (v.y == 0),
{
}

} // verus!
