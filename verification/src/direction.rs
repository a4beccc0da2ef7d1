//! Compass directions on the board and bounded stepping.

use vstd::prelude::*;

verus! {

/// Column x row, with row 0 at the bottom.
pub type Pos = (u8, u8);

/// A direction on the game board. North is up (increasing row) and
/// east is right (increasing column).
#[derive(Clone, Copy, PartialEq, Eq, Structural, Debug)]
pub enum Direction {
    N,
    NE,
    E,
    SE,
    S,
    SW,
    W,
    NW,
}

impl Direction {
    /// Column step of this direction.
    pub open spec fn dx(self) -> int {
        match self {
            Direction::N => 0,
            Direction::NE => 1,
            Direction::E => 1,
            Direction::SE => 1,
            Direction::S => 0,
            Direction::SW => -1,
            Direction::W => -1,
            Direction::NW => -1,
        }
    }

    /// Row step of this direction.
    pub open spec fn dy(self) -> int {
        match self {
            Direction::N => 1,
            Direction::NE => 1,
            Direction::E => 0,
            Direction::SE => -1,
            Direction::S => -1,
            Direction::SW => -1,
            Direction::W => 0,
            Direction::NW => 1,
        }
    }

    /// The 180-degree opposite direction.
    pub open spec fn spec_inv(self) -> Direction {
        match self {
            Direction::N => Direction::S,
            Direction::NE => Direction::SW,
            Direction::E => Direction::W,
            Direction::SE => Direction::NW,
            Direction::S => Direction::N,
            Direction::SW => Direction::NE,
            Direction::W => Direction::E,
            Direction::NW => Direction::SE,
        }
    }

    /// The next position from `pos` in direction `self`, or `None` if
    /// that would fall outside the `width` x `height` board.
    pub fn walk(&self, pos: Pos, width: u8, height: u8) -> (r: Option<Pos>)
        requires
            pos.0 < width,
            pos.1 < height,
        ensures
            ({
                let c2 = pos.0 + self.dx();
                let r2 = pos.1 + self.dy();
                match r {
                    Some(q) => 0 <= c2 < width && 0 <= r2 < height && q.0 == c2 && q.1 == r2,
                    None => !(0 <= c2 < width && 0 <= r2 < height),
                }
            }),
    {
        match self {
            Direction::N => {
                let r2 = pos.1 + 1;
                if r2 >= height {
                    None
                } else {
                    Some((pos.0, r2))
                }
            },
            Direction::NE => {
                let c2 = pos.0 + 1;
                let r2 = pos.1 + 1;
                if c2 >= width || r2 >= height {
                    None
                } else {
                    Some((c2, r2))
                }
            },
            Direction::E => {
                let c2 = pos.0 + 1;
                if c2 >= width {
                    None
                } else {
                    Some((c2, pos.1))
                }
            },
            Direction::SE => {
                let c2 = pos.0 + 1;
                if pos.1 == 0 || c2 >= width {
                    None
                } else {
                    Some((c2, pos.1 - 1))
                }
            },
            Direction::S => {
                if pos.1 == 0 {
                    None
                } else {
                    Some((pos.0, pos.1 - 1))
                }
            },
            Direction::SW => {
                if pos.0 == 0 || pos.1 == 0 {
                    None
                } else {
                    Some((pos.0 - 1, pos.1 - 1))
                }
            },
            Direction::W => {
                if pos.0 == 0 {
                    None
                } else {
                    Some((pos.0 - 1, pos.1))
                }
            },
            Direction::NW => {
                let r2 = pos.1 + 1;
                if pos.0 == 0 || r2 >= height {
                    None
                } else {
                    Some((pos.0 - 1, r2))
                }
            },
        }
    }

    /// The opposite direction.
    pub fn inv(&self) -> (r: Direction)
        ensures
            r == self.spec_inv(),
    {
        match self {
            Direction::N => Direction::S,
            Direction::NE => Direction::SW,
            Direction::E => Direction::W,
            Direction::SE => Direction::NW,
            Direction::S => Direction::N,
            Direction::SW => Direction::NE,
            Direction::W => Direction::E,
            Direction::NW => Direction::SE,
        }
    }

    /// One half of the available directions; together with their
    /// inverses these cover all four winning axes exactly once.
    pub fn half() -> (r: [Direction; 4])
        ensures
            r@ == seq![Direction::N, Direction::NE, Direction::E, Direction::SE],
    {
        let r = [Direction::N, Direction::NE, Direction::E, Direction::SE];
        proof {
            assert(r@ =~= seq![Direction::N, Direction::NE, Direction::E, Direction::SE]);
        }
        r
    }
}

} // verus!
