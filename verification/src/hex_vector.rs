//! Cube coordinates on a hexagonal grid.

use vstd::prelude::*;

verus! {

/// A cell position in cube coordinates, as mathematical integers.
pub type Cube = (int, int, int);

/// A cell of the hexagonal grid in cube coordinates `(q, r, s)`.
#[derive(Clone, Copy, Debug, PartialEq, Eq, Hash, Structural)]
pub struct HexVector(pub i16, pub i16, pub i16);

pub open spec fn abs(x: int) -> int {
    if x < 0 {
        -x
    } else {
        x
    }
}

pub open spec fn max3(a: int, b: int, c: int) -> int {
    if a >= b && a >= c {
        a
    } else if b >= c {
        b
    } else {
        c
    }
}

pub open spec fn cube_add(a: Cube, b: Cube) -> Cube {
    (a.0 + b.0, a.1 + b.1, a.2 + b.2)
}

/// The grid distance between two cells: the largest coordinate difference.
pub open spec fn cube_distance(a: Cube, b: Cube) -> int {
    max3(abs(a.0 - b.0), abs(a.1 - b.1), abs(a.2 - b.2))
}

/// Every coordinate of the cell can be stored in an `i16`.
pub open spec fn cube_fits(c: Cube) -> bool {
    &&& i16::MIN <= c.0 <= i16::MAX
    &&& i16::MIN <= c.1 <= i16::MAX
    &&& i16::MIN <= c.2 <= i16::MAX
}

/// Every cell within distance `radius` of `c` has coordinates that fit in an `i16`.
pub open spec fn ball_fits(c: Cube, radius: int) -> bool {
    &&& i16::MIN <= c.0 - radius && c.0 + radius <= i16::MAX
    &&& i16::MIN <= c.1 - radius && c.1 + radius <= i16::MAX
    &&& i16::MIN <= c.2 - radius && c.2 + radius <= i16::MAX
}

/// The six unit steps between neighbouring cells, in the order in which
/// a ring walk takes them.
pub open spec fn spec_direction(i: int) -> Cube {
    if i == 0 {
        (-1, 1, 0)
    } else if i == 1 {
        (0, 1, -1)
    } else if i == 2 {
        (1, 0, -1)
    } else if i == 3 {
        (1, -1, 0)
    } else if i == 4 {
        (0, -1, 1)
    } else {
        (-1, 0, 1)
    }
}

impl HexVector {
    pub open spec fn cube(self) -> Cube {
        (self.0 as int, self.1 as int, self.2 as int)
    }

    pub fn new(q: i16, r: i16, s: i16) -> (h: HexVector)
        ensures
            h.0 == q,
            h.1 == r,
            h.2 == s,
    {
        HexVector(q, r, s)
    }

    /// The cell shifted by `other`.
    pub fn plus(&self, other: &HexVector) -> (h: HexVector)
        requires
            cube_fits(cube_add(self.cube(), other.cube())),
        ensures
            h.cube() == cube_add(self.cube(), other.cube()),
    {
        HexVector(self.0 + other.0, self.1 + other.1, self.2 + other.2)
    }

    /// The neighbour of the cell in direction `direction`.
    pub fn get_sibling(&self, direction: usize) -> (h: HexVector)
        requires
            direction < 6,
            cube_fits(cube_add(self.cube(), spec_direction(direction as int))),
        ensures
            h.cube() == cube_add(self.cube(), spec_direction(direction as int)),
    {
        self.plus(&hex_direction(direction))
    }

    /// The grid distance to `other`.
    pub fn distance_to(&self, other: &HexVector) -> (d: u16)
        ensures
            d == cube_distance(self.cube(), other.cube()),
    {
        let dq: i32 = abs_i32(self.0 as i32 - other.0 as i32);
        let dr: i32 = abs_i32(self.1 as i32 - other.1 as i32);
        let ds: i32 = abs_i32(self.2 as i32 - other.2 as i32);
        let m: i32 = if dq >= dr && dq >= ds {
            dq
        } else if dr >= ds {
            dr
        } else {
            ds
        };
        m as u16
    }
}

fn abs_i32(x: i32) -> (y: i32)
    requires
        x > i32::MIN,
    ensures
        y == abs(x as int),
{
    if x < 0 {
        -x
    } else {
        x
    }
}

/// The unit step `i` between neighbouring cells.
pub fn hex_direction(i: usize) -> (d: HexVector)
    requires
        i < 6,
    ensures
        d.cube() == spec_direction(i as int),
{
    if i == 0 {
        HexVector(-1, 1, 0)
    } else if i == 1 {
        HexVector(0, 1, -1)
    } else if i == 2 {
        HexVector(1, 0, -1)
    } else if i == 3 {
        HexVector(1, -1, 0)
    } else if i == 4 {
        HexVector(0, -1, 1)
    } else {
        HexVector(-1, 0, 1)
    }
}


/// The grid distance is the largest of the three coordinate differences:
/// no coordinate differs by more, and one differs by exactly that much.
pub proof fn lemma_cube_distance(a: Cube, b: Cube)
    ensures
        a.0 - b.0 <= cube_distance(a, b) && b.0 - a.0 <= cube_distance(a, b),
        a.1 - b.1 <= cube_distance(a, b) && b.1 - a.1 <= cube_distance(a, b),
        a.2 - b.2 <= cube_distance(a, b) && b.2 - a.2 <= cube_distance(a, b),
        cube_distance(a, b) == a.0 - b.0 || cube_distance(a, b) == b.0 - a.0 || cube_distance(
            a,
            b,
        ) == a.1 - b.1 || cube_distance(a, b) == b.1 - a.1 || cube_distance(a, b) == a.2 - b.2
            || cube_distance(a, b) == b.2 - a.2,
{
}

} // verus!
