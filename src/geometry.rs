//! Lattice points and the eight step directions.

use vstd::prelude::*;

verus! {

/// A lattice point or displacement vector.
#[derive(Debug, Clone, Copy, PartialEq, Eq, Structural)]
pub struct P {
    pub x: i32,
    pub y: i32,
}

impl P {
    /// Componentwise sum, as a mathematical point (caller ensures it fits in `i32`).
    pub open spec fn plus(self, o: P) -> P {
        P { x: (self.x + o.x) as i32, y: (self.y + o.y) as i32 }
    }

    /// Componentwise difference.
    pub open spec fn minus(self, o: P) -> P {
        P { x: (self.x - o.x) as i32, y: (self.y - o.y) as i32 }
    }

    /// The point `self + k * v`.
    pub open spec fn shifted(self, v: P, k: int) -> P {
        P { x: (self.x + k * v.x) as i32, y: (self.y + k * v.y) as i32 }
    }

    /// The vector rotated by 90 degrees: (x, y) -> (-y, x).
    pub open spec fn rot_spec(self) -> P {
        P { x: (-self.y) as i32, y: self.x }
    }

    /// Squared Euclidean length plus one.
    pub open spec fn weighted_dist_spec(self) -> int {
        self.x * self.x + self.y * self.y + 1
    }

    pub fn new(x: i32, y: i32) -> (r: P)
        ensures
            r.x == x,
            r.y == y,
    {
        P { x, y }
    }

    pub fn rotated(&self) -> (r: P)
        requires
            self.y > i32::MIN,
        ensures
            r == self.rot_spec(),
    {
        P { x: -self.y, y: self.x }
    }

    /// Squared distance from the origin, plus one.
    pub fn weighted_dist(&self) -> (r: i64)
        requires
            self.x > i32::MIN,
            self.y > i32::MIN,
        ensures
            r == self.weighted_dist_spec(),
    {
        let x = self.x as i64;
        let y = self.y as i64;
        assert(0 <= x * x <= 2147483647 * 2147483647) by (nonlinear_arith)
            requires -2147483647 <= x <= 2147483647;
        assert(0 <= y * y <= 2147483647 * 2147483647) by (nonlinear_arith)
            requires -2147483647 <= y <= 2147483647;
        x * x + y * y + 1
    }

    pub fn neg(self) -> (r: P)
        requires
            self.x > i32::MIN,
            self.y > i32::MIN,
        ensures
            r.x == -self.x,
            r.y == -self.y,
    {
        P { x: -self.x, y: -self.y }
    }

    pub fn add(self, rhs: P) -> (r: P)
        requires
            i32::MIN <= self.x + rhs.x <= i32::MAX,
            i32::MIN <= self.y + rhs.y <= i32::MAX,
        ensures
            r == self.plus(rhs),
            r.x == self.x + rhs.x,
            r.y == self.y + rhs.y,
    {
        P { x: self.x + rhs.x, y: self.y + rhs.y }
    }

    pub fn sub(self, rhs: P) -> (r: P)
        requires
            i32::MIN <= self.x - rhs.x <= i32::MAX,
            i32::MIN <= self.y - rhs.y <= i32::MAX,
        ensures
            r == self.minus(rhs),
            r.x == self.x - rhs.x,
            r.y == self.y - rhs.y,
    {
        P { x: self.x - rhs.x, y: self.y - rhs.y }
    }
}

/// One of the eight unit steps on the lattice, in counter-clockwise order
/// by 45 degrees; the first coordinate grows downwards.
#[derive(Debug, Clone, Copy, PartialEq, Eq, Structural)]
pub enum Direction {
    D,
    DR,
    R,
    UR,
    U,
    UL,
    L,
    DL,
}

/// Returned when a zero displacement is converted into a direction.
#[derive(Debug, Clone, Copy, PartialEq, Eq, Structural)]
pub struct InvalidDirection;

/// The sign of an integer: -1, 0 or 1.
pub open spec fn sign(v: int) -> int {
    if v > 0 {
        1
    } else if v < 0 {
        -1
    } else {
        0
    }
}

impl Direction {
    /// The canonical index of the direction, in `0..8`.
    pub open spec fn idx(self) -> int {
        match self {
            Direction::D => 0,
            Direction::DR => 1,
            Direction::R => 2,
            Direction::UR => 3,
            Direction::U => 4,
            Direction::UL => 5,
            Direction::L => 6,
            Direction::DL => 7,
        }
    }

    /// The direction whose index is `i mod 8`.
    pub open spec fn of_idx(i: int) -> Direction {
        let k = i % 8;
        if k == 0 {
            Direction::D
        } else if k == 1 {
            Direction::DR
        } else if k == 2 {
            Direction::R
        } else if k == 3 {
            Direction::UR
        } else if k == 4 {
            Direction::U
        } else if k == 5 {
            Direction::UL
        } else if k == 6 {
            Direction::L
        } else {
            Direction::DL
        }
    }

    /// The unit step of the direction.
    pub open spec fn vec(self) -> P {
        match self {
            Direction::D => P { x: 1, y: 0 },
            Direction::DR => P { x: 1, y: 1 },
            Direction::R => P { x: 0, y: 1 },
            Direction::UR => P { x: -1i32, y: 1 },
            Direction::U => P { x: -1i32, y: 0 },
            Direction::UL => P { x: -1i32, y: -1i32 },
            Direction::L => P { x: 0, y: -1i32 },
            Direction::DL => P { x: 1, y: -1i32 },
        }
    }

    /// The direction turned by 90 degrees.
    pub open spec fn rot(self) -> Direction {
        Direction::of_idx(self.idx() + 2)
    }

    /// The opposite direction.
    pub open spec fn flip(self) -> Direction {
        Direction::of_idx(self.idx() + 4)
    }

    /// Resolves the sign pattern of a nonzero displacement into a direction;
    /// a zero displacement has none.
    pub fn from_p2d(p2d: P) -> (r: Result<Direction, InvalidDirection>)
        ensures
            (p2d.x == 0 && p2d.y == 0) <==> r is Err,
            r matches Ok(d) ==> d.vec().x == sign(p2d.x as int) && d.vec().y == sign(
                p2d.y as int,
            ),
    {
        let dx: i32 = if p2d.x > 0 {
            1
        } else if p2d.x < 0 {
            -1
        } else {
            0
        };
        let dy: i32 = if p2d.y > 0 {
            1
        } else if p2d.y < 0 {
            -1
        } else {
            0
        };
        if dx == 1 && dy == 0 {
            Ok(Direction::D)
        } else if dx == 1 && dy == 1 {
            Ok(Direction::DR)
        } else if dx == 0 && dy == 1 {
            Ok(Direction::R)
        } else if dx == -1 && dy == 1 {
            Ok(Direction::UR)
        } else if dx == -1 && dy == 0 {
            Ok(Direction::U)
        } else if dx == -1 && dy == -1 {
            Ok(Direction::UL)
        } else if dx == 0 && dy == -1 {
            Ok(Direction::L)
        } else if dx == 1 && dy == -1 {
            Ok(Direction::DL)
        } else {
            Err(InvalidDirection)
        }
    }

    pub fn as_p2d(&self) -> (r: P)
        ensures
            r == self.vec(),
    {
        match self {
            Direction::D => P::new(1, 0),
            Direction::DR => P::new(1, 1),
            Direction::R => P::new(0, 1),
            Direction::UR => P::new(-1, 1),
            Direction::U => P::new(-1, 0),
            Direction::UL => P::new(-1, -1),
            Direction::L => P::new(0, -1),
            Direction::DL => P::new(1, -1),
        }
    }

    pub fn from_idx(idx: usize) -> (r: Direction)
        requires
            idx < 8,
        ensures
            r.idx() == idx,
            r == Direction::of_idx(idx as int),
    {
        if idx == 0 {
            Direction::D
        } else if idx == 1 {
            Direction::DR
        } else if idx == 2 {
            Direction::R
        } else if idx == 3 {
            Direction::UR
        } else if idx == 4 {
            Direction::U
        } else if idx == 5 {
            Direction::UL
        } else if idx == 6 {
            Direction::L
        } else {
            Direction::DL
        }
    }

    pub fn as_idx(&self) -> (r: usize)
        ensures
            r == self.idx(),
            r < 8,
    {
        match self {
            Direction::D => 0,
            Direction::DR => 1,
            Direction::R => 2,
            Direction::UR => 3,
            Direction::U => 4,
            Direction::UL => 5,
            Direction::L => 6,
            Direction::DL => 7,
        }
    }

    /// All eight directions in index order.
    pub fn to_vec() -> (r: Vec<Direction>)
        ensures
            r@.len() == 8,
            forall|i: int| 0 <= i < 8 ==> (#[trigger] r@[i]).idx() == i,
    {
        let mut r: Vec<Direction> = Vec::new();
        let mut i: usize = 0;
        while i < 8
            invariant
                i <= 8,
                r@.len() == i,
                forall|k: int| 0 <= k < i ==> (#[trigger] r@[k]).idx() == k,
            decreases 8 - i,
        {
            r.push(Direction::from_idx(i));
            i = i + 1;
        }
        r
    }

    pub fn flipped(self) -> (r: Direction)
        ensures
            r == self.flip(),
            r.vec().x == -self.vec().x,
            r.vec().y == -self.vec().y,
    {
        Direction::from_idx((self.as_idx() + 4) % 8)
    }

    pub fn rotated(&self) -> (r: Direction)
        ensures
            r == self.rot(),
            r.vec() == self.vec().rot_spec(),
    {
        Direction::from_idx((self.as_idx() + 2) % 8)
    }
}

} // verus!
