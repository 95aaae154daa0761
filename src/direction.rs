use vstd::prelude::*;

verus! {

/// Cardinal directions within the program, in clockwise order.
#[derive(Clone, Copy, Debug, PartialEq, Eq, Structural)]
pub enum Direction {
    Up,
    Right,
    Down,
    Left,
}

/// The two settings of the codel chooser.
#[derive(Clone, Copy, Debug, PartialEq, Eq, Structural)]
pub enum Chooser {
    Left,
    Right,
}

impl Direction {
    /// Position of the direction in clockwise order, starting at `Up`.
    pub open spec fn index(self) -> int {
        match self {
            Direction::Up => 0,
            Direction::Right => 1,
            Direction::Down => 2,
            Direction::Left => 3,
        }
    }

    /// The direction at a given position in clockwise order (taken modulo 4).
    pub open spec fn from_index(i: int) -> Direction {
        let k = i % 4;
        if k == 0 {
            Direction::Up
        } else if k == 1 {
            Direction::Right
        } else if k == 2 {
            Direction::Down
        } else {
            Direction::Left
        }
    }

    /// The direction reached after `k` quarter turns clockwise.
    pub open spec fn rotated(self, k: int) -> Direction {
        Direction::from_index(self.index() + k)
    }

    pub open spec fn spec_next(self) -> Direction {
        self.rotated(1)
    }

    pub open spec fn spec_previous(self) -> Direction {
        self.rotated(3)
    }

    /// The next direction in clockwise order.
    pub fn next(&self) -> (r: Direction)
        ensures
            r == self.spec_next(),
    {
        match self {
            Direction::Up => Direction::Right,
            Direction::Right => Direction::Down,
            Direction::Down => Direction::Left,
            Direction::Left => Direction::Up,
        }
    }

    /// The previous direction in clockwise order.
    pub fn previous(&self) -> (r: Direction)
        ensures
            r == self.spec_previous(),
    {
        self.next().next().next()
    }
}

impl Chooser {
    pub open spec fn spec_next(self) -> Chooser {
        match self {
            Chooser::Left => Chooser::Right,
            Chooser::Right => Chooser::Left,
        }
    }

    /// The setting after `k` toggles.
    pub open spec fn toggled(self, k: nat) -> Chooser {
        if k % 2 == 0 {
            self
        } else {
            self.spec_next()
        }
    }

    /// The direction that the chooser picks when the pointer faces `d`:
    /// a quarter turn counter-clockwise for `Left`, clockwise for `Right`.
    pub open spec fn spec_turn(self, d: Direction) -> Direction {
        match self {
            Chooser::Left => d.spec_previous(),
            Chooser::Right => d.spec_next(),
        }
    }

    /// The opposite setting.
    pub fn next(&self) -> (r: Chooser)
        ensures
            r == self.spec_next(),
    {
        match self {
            Chooser::Left => Chooser::Right,
            Chooser::Right => Chooser::Left,
        }
    }

    /// The direction after applying the chooser to `direction`.
    pub fn turn(&self, direction: Direction) -> (r: Direction)
        ensures
            r == self.spec_turn(direction),
    {
        match self {
            Chooser::Left => direction.previous(),
            Chooser::Right => direction.next(),
        }
    }
}

/// Four clockwise turns bring a direction back to itself.
pub proof fn lemma_direction_full_turn(d: Direction)
    ensures
        d.spec_next().spec_next().spec_next().spec_next() == d,
{
}

/// Toggling the chooser twice brings it back to itself.
pub proof fn lemma_chooser_double_toggle(c: Chooser)
    ensures
        c.spec_next().spec_next() == c,
{
}

} // verus!
