//! Actors of the simulation: grid positions, facing directions, the player
//! with its in-progress trail, and the bouncing balls.

use vstd::prelude::*;

use crate::grid::{grid_wf, Cell};

verus! {

/// An integer (x, y) grid coordinate.
#[derive(Debug, Clone, Copy, PartialEq, Eq, Structural)]
pub struct Position {
    pub x: i32,
    pub y: i32,
}

/// A facing direction; `opposite` is used to forbid instant reversal while
/// the player is drawing a trail.
#[derive(Debug, Clone, Copy, PartialEq, Eq, Structural)]
pub enum Direction {
    Up,
    Down,
    Left,
    Right,
}

impl Direction {
    pub open spec fn opposite_spec(self) -> Direction {
        match self {
            Direction::Up => Direction::Down,
            Direction::Down => Direction::Up,
            Direction::Left => Direction::Right,
            Direction::Right => Direction::Left,
        }
    }

    pub fn opposite(&self) -> (d: Direction)
        ensures
            d == self.opposite_spec(),
    {
        match self {
            Direction::Up => Direction::Down,
            Direction::Down => Direction::Up,
            Direction::Left => Direction::Right,
            Direction::Right => Direction::Left,
        }
    }
}

impl Position {
    pub fn new(x: i32, y: i32) -> (p: Position)
        ensures
            p.x == x,
            p.y == y,
    {
        Position { x, y }
    }

    /// The coordinate one step from `self` in direction `d`, as unbounded
    /// integers.
    pub open spec fn moved_xy(self, d: Direction) -> (int, int) {
        match d {
            Direction::Up => (self.x as int, self.y - 1),
            Direction::Down => (self.x as int, self.y + 1),
            Direction::Left => (self.x - 1, self.y as int),
            Direction::Right => (self.x + 1, self.y as int),
        }
    }

    pub fn moved(&self, direction: Direction) -> (p: Position)
        requires
            i32::MIN < self.x < i32::MAX,
            i32::MIN < self.y < i32::MAX,
        ensures
            p.x == self.moved_xy(direction).0,
            p.y == self.moved_xy(direction).1,
    {
        match direction {
            Direction::Up => Position::new(self.x, self.y - 1),
            Direction::Down => Position::new(self.x, self.y + 1),
            Direction::Left => Position::new(self.x - 1, self.y),
            Direction::Right => Position::new(self.x + 1, self.y),
        }
    }
}

/// The player: a position, a facing direction, and the ordered trail of
/// cells swept during an in-progress cut. The trail is non-empty exactly
/// while `is_drawing` holds.
#[derive(Debug, Clone)]
pub struct Player {
    pub position: Position,
    pub direction: Direction,
    pub trail: Vec<Position>,
    pub is_drawing: bool,
}

impl Player {
    pub fn new(x: i32, y: i32) -> (p: Player)
        ensures
            p.position.x == x,
            p.position.y == y,
            p.direction == Direction::Right,
            p.trail@.len() == 0,
            !p.is_drawing,
    {
        Player {
            position: Position::new(x, y),
            direction: Direction::Right,
            trail: Vec::new(),
            is_drawing: false,
        }
    }

    /// Begin drawing: the trail is reset to just the current position.
    pub fn start_trail(&mut self)
        ensures
            final(self).is_drawing,
            final(self).trail@ =~= seq![old(self).position],
            final(self).position == old(self).position,
            final(self).direction == old(self).direction,
    {
        self.is_drawing = true;
        self.trail.clear();
        self.trail.push(self.position);
    }

    /// While drawing, append the current position to the trail.
    pub fn add_to_trail(&mut self)
        ensures
            final(self).position == old(self).position,
            final(self).direction == old(self).direction,
            final(self).is_drawing == old(self).is_drawing,
            old(self).is_drawing ==> final(self).trail@ == old(self).trail@.push(
                old(self).position,
            ),
            !old(self).is_drawing ==> final(self).trail@ == old(self).trail@,
    {
        if self.is_drawing {
            self.trail.push(self.position);
        }
    }

    /// Leave the drawing state, discarding the trail.
    pub fn clear_trail(&mut self)
        ensures
            final(self).trail@.len() == 0,
            !final(self).is_drawing,
            final(self).position == old(self).position,
            final(self).direction == old(self).direction,
    {
        self.trail.clear();
        self.is_drawing = false;
    }
}

/// The narrow capability every hazard kind offers the simulation
/// controller: a position query, and one tick of movement against a board
/// snapshot, preserving a physical range invariant of the kind's choosing.
pub trait Enemy {
    /// The range invariant the hazard maintains on a board of the given
    /// dimensions.
    spec fn inv(&self, width: int, height: int) -> bool;

    fn position(&self) -> Position;

    fn update(&mut self, width: i32, height: i32, board: &Vec<Cell>)
        requires
            grid_wf(board@, width as int, height as int),
            old(self).inv(width as int, height as int),
        ensures
            final(self).inv(width as int, height as int),
    ;
}

/// A bouncing ball: a position and an integer velocity whose components are
/// +1 or -1; it reflects off boundaries and filled cells.
#[derive(Debug, Clone, Copy)]
pub struct Ball {
    pub position: Position,
    pub velocity: (i32, i32),
}

impl Ball {
    pub fn new(x: i32, y: i32, vx: i32, vy: i32) -> (b: Ball)
        ensures
            b.position.x == x,
            b.position.y == y,
            b.velocity.0 == vx,
            b.velocity.1 == vy,
    {
        Ball {
            position: Position::new(x, y),
            velocity: (vx, vy),
        }
    }
}

} // verus!
