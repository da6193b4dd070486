use vstd::prelude::*;

verus! {

/// One of the six faces of a cube, in the order in which the face bits of a
/// visibility mask are numbered.
#[derive(Clone, Copy, Debug, PartialEq, Eq, Hash, Structural)]
pub enum Direction {
    Left,
    Right,
    Forward,
    Back,
    Up,
    Down,
}

impl Direction {
    /// Position of the direction in the declaration order, which is also the
    /// number of its bit in a six-bit face mask.
    pub open spec fn index(self) -> nat {
        match self {
            Direction::Left => 0,
            Direction::Right => 1,
            Direction::Forward => 2,
            Direction::Back => 3,
            Direction::Up => 4,
            Direction::Down => 5,
        }
    }

    /// The axis the direction runs along: 0 for x, 1 for y, 2 for z.
    pub open spec fn axis(self) -> nat {
        self.index() / 2
    }

    /// The step along the axis: -1 for the first direction of each pair, +1
    /// for the second.
    pub open spec fn sign(self) -> int {
        if self.index() % 2 == 0 {
            -1
        } else {
            1
        }
    }

    /// The direction with the given index.
    pub open spec fn of_index(i: nat) -> Direction {
        if i == 0 {
            Direction::Left
        } else if i == 1 {
            Direction::Right
        } else if i == 2 {
            Direction::Forward
        } else if i == 3 {
            Direction::Back
        } else if i == 4 {
            Direction::Up
        } else {
            Direction::Down
        }
    }

    /// The direction that faces the other way along the same axis.
    pub open spec fn flipped(self) -> Direction {
        match self {
            Direction::Left => Direction::Right,
            Direction::Right => Direction::Left,
            Direction::Forward => Direction::Back,
            Direction::Back => Direction::Forward,
            Direction::Up => Direction::Down,
            Direction::Down => Direction::Up,
        }
    }

    pub fn opposite(self) -> (r: Direction)
        ensures
            r == self.flipped(),
            r.axis() == self.axis(),
            r.sign() == -self.sign(),
    {
        match self {
            Direction::Left => Direction::Right,
            Direction::Right => Direction::Left,
            Direction::Forward => Direction::Back,
            Direction::Back => Direction::Forward,
            Direction::Up => Direction::Down,
            Direction::Down => Direction::Up,
        }
    }

    /// Bit number of the direction in a face mask.
    pub fn bit(self) -> (r: u8)
        ensures
            r == self.index(),
            r < 6,
    {
        match self {
            Direction::Left => 0,
            Direction::Right => 1,
            Direction::Forward => 2,
            Direction::Back => 3,
            Direction::Up => 4,
            Direction::Down => 5,
        }
    }

    /// The axis the direction runs along.
    pub fn axis_index(self) -> (r: usize)
        ensures
            r == self.axis(),
            r < 3,
    {
        match self {
            Direction::Left => 0,
            Direction::Right => 0,
            Direction::Forward => 1,
            Direction::Back => 1,
            Direction::Up => 2,
            Direction::Down => 2,
        }
    }

    /// Whether the direction steps towards larger coordinates.
    pub fn is_positive(self) -> (r: bool)
        ensures
            r == (self.sign() == 1),
    {
        match self {
            Direction::Left => false,
            Direction::Right => true,
            Direction::Forward => false,
            Direction::Back => true,
            Direction::Up => false,
            Direction::Down => true,
        }
    }

    /// The direction whose bit number is `i`, if there is one.
    pub fn from_index(i: usize) -> (r: Option<Direction>)
        ensures
            i < 6 ==> r == Some(Direction::of_index(i as nat)),
            i >= 6 ==> r.is_none(),
    {
        if i == 0 {
            Some(Direction::Left)
        } else if i == 1 {
            Some(Direction::Right)
        } else if i == 2 {
            Some(Direction::Forward)
        } else if i == 3 {
            Some(Direction::Back)
        } else if i == 4 {
            Some(Direction::Up)
        } else if i == 5 {
            Some(Direction::Down)
        } else {
            None
        }
    }

    /// The six directions in declaration order.
    pub fn all() -> (r: [Direction; 6])
        ensures
            forall|i: int| 0 <= i < 6 ==> r[i] == Direction::of_index(i as nat),
    {
        [
            Direction::Left,
            Direction::Right,
            Direction::Forward,
            Direction::Back,
            Direction::Up,
            Direction::Down,
        ]
    }
}

/// Flipping a direction twice gives the direction back, and the index
/// round-trips through `of_index`.
pub proof fn lemma_direction_roundtrip(d: Direction)
    ensures
        d.flipped().flipped() == d,
        Direction::of_index(d.index()) == d,
        d.index() < 6,
        d.flipped().index() != d.index(),
{
}

} // verus!
