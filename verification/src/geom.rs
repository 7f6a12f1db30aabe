//! Grid geometry: coordinates, displacement vectors and bounds arithmetic.

use vstd::prelude::*;

verus! {

/// A grid coordinate or a unit displacement, as a pair of signed integers.
/// Used both as an absolute position and as a direction vector.
#[derive(PartialEq, Eq, Structural, Clone, Copy, Debug, Hash)]
pub struct Pos {
    pub x: i64,
    pub y: i64,
}

impl View for Pos {
    type V = (int, int);

    open spec fn view(&self) -> (int, int) {
        (self.x as int, self.y as int)
    }
}

impl Pos {
    /// Component-wise sum of two coordinates.
    pub fn add(self, other: Self) -> (r: Self)
        requires
            i64::MIN <= self.x + other.x <= i64::MAX,
            i64::MIN <= self.y + other.y <= i64::MAX,
        ensures
            r@ == (self.x + other.x, self.y + other.y),
    {
        Pos { x: self.x + other.x, y: self.y + other.y }
    }
}

/// One of the four moves the player can attempt.
#[derive(PartialEq, Eq, Structural, Clone, Copy, Debug)]
pub enum Direction {
    Left,
    Right,
    Up,
    Down,
}

/// The unit displacement of a direction. The y axis grows downward,
/// matching the row order of a parsed board.
pub open spec fn delta(d: Direction) -> (int, int) {
    match d {
        Direction::Left => (-1int, 0int),
        Direction::Right => (1int, 0int),
        Direction::Up => (0int, -1int),
        Direction::Down => (0int, 1int),
    }
}

/// The coordinate one step from `p` in direction `d`.
pub open spec fn move_of(p: (int, int), d: Direction) -> (int, int) {
    (p.0 + delta(d).0, p.1 + delta(d).1)
}

/// Whether `p` lies inside a grid of the given size. The bound is inclusive
/// of the size itself on both axes, so a grid of size (w, h) admits the
/// coordinates 0..=w and 0..=h; the rule is applied uniformly to player
/// moves and to pushes.
pub open spec fn in_bounds(p: (int, int), size: (int, int)) -> bool {
    0 <= p.0 <= size.0 && 0 <= p.1 <= size.1
}

/// The unit displacement of a direction, as a coordinate value.
pub fn dir_delta(d: Direction) -> (r: Pos)
    ensures
        r@ == delta(d),
{
    match d {
        Direction::Left => Pos { x: -1, y: 0 },
        Direction::Right => Pos { x: 1, y: 0 },
        Direction::Up => Pos { x: 0, y: -1 },
        Direction::Down => Pos { x: 0, y: 1 },
    }
}

} // verus!
