//! The four sides of a tile, and the scan order propagation walks them in.

use vstd::prelude::*;

verus! {

/// One of the four sides of a tile, also used to address a slot's
/// neighbours. The ordinal order Up, Right, Down, Left is the canonical
/// iteration order of propagation.
#[derive(Debug, PartialEq, Eq, Structural, Clone, Copy)]
pub enum Direction {
    Up,
    Right,
    Down,
    Left,
}

impl Direction {
    /// The ordinal of this direction: Up = 0, Right = 1, Down = 2, Left = 3.
    pub open spec fn idx(self) -> int {
        match self {
            Direction::Up => 0,
            Direction::Right => 1,
            Direction::Down => 2,
            Direction::Left => 3,
        }
    }

    /// The opposite direction, as a spec-level value.
    pub open spec fn rev(self) -> Direction {
        match self {
            Direction::Up => Direction::Down,
            Direction::Right => Direction::Left,
            Direction::Down => Direction::Up,
            Direction::Left => Direction::Right,
        }
    }

    /// All four directions in canonical (ordinal) order.
    pub fn all() -> (r: Vec<Direction>)
        ensures
            r@ == seq![Direction::Up, Direction::Right, Direction::Down, Direction::Left],
    {
        let r = vec![Direction::Up, Direction::Right, Direction::Down, Direction::Left];
        proof {
            assert(r@ =~= seq![Direction::Up, Direction::Right, Direction::Down, Direction::Left]);
        }
        r
    }

    /// The opposite direction.
    pub fn reverse(&self) -> (r: Direction)
        ensures
            r == self.rev(),
    {
        match self {
            Direction::Up => Direction::Down,
            Direction::Right => Direction::Left,
            Direction::Down => Direction::Up,
            Direction::Left => Direction::Right,
        }
    }

    /// The ordinal of this direction, for indexing a connector array.
    pub fn index(&self) -> (r: usize)
        ensures
            r == self.idx(),
            r < 4,
    {
        match self {
            Direction::Up => 0,
            Direction::Right => 1,
            Direction::Down => 2,
            Direction::Left => 3,
        }
    }

    /// The lower-case name of this direction.
    pub fn to_string(&self) -> (r: String)
        ensures
            r@ == self.label(),
    {
        match self {
            Direction::Up => "up".to_owned(),
            Direction::Right => "right".to_owned(),
            Direction::Down => "down".to_owned(),
            Direction::Left => "left".to_owned(),
        }
    }

    /// The lower-case name of this direction, as a sequence of characters.
    pub open spec fn label(self) -> Seq<char> {
        match self {
            Direction::Up => "up"@,
            Direction::Right => "right"@,
            Direction::Down => "down"@,
            Direction::Left => "left"@,
        }
    }

    /// Reversing a direction twice yields the direction itself.
    pub proof fn lemma_reverse_involutive(d: Direction)
        ensures
            d.rev().rev() == d,
    {
    }
}

} // verus!
