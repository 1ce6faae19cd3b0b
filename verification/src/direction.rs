//! The four directions parallel to the axes of a grid, and arrays indexed by them.

use std::ops::{Index, IndexMut};
use vstd::prelude::*;

verus! {

/// A direction parallel to the axes of a two-dimensional grid.
///
/// `Down` decreases the row index and `Up` increases it.
#[derive(Debug, PartialEq, Eq, Clone, Copy, Structural)]
pub enum Direction {
    Down,
    Left,
    Right,
    Up,
}

impl Direction {
    /// The position of the direction in the order `Down`, `Left`, `Right`, `Up`.
    pub open spec fn index(self) -> int {
        match self {
            Direction::Down => 0,
            Direction::Left => 1,
            Direction::Right => 2,
            Direction::Up => 3,
        }
    }

    /// The direction that stands at position `i` of `directions()`.
    pub open spec fn from_index(i: int) -> Direction {
        if i == 0 {
            Direction::Down
        } else if i == 1 {
            Direction::Left
        } else if i == 2 {
            Direction::Right
        } else {
            Direction::Up
        }
    }

    pub open spec fn spec_opposite(self) -> Direction {
        match self {
            Direction::Down => Direction::Up,
            Direction::Left => Direction::Right,
            Direction::Right => Direction::Left,
            Direction::Up => Direction::Down,
        }
    }

    /// The row step of the unit vector of the direction.
    pub open spec fn dy(self) -> int {
        match self {
            Direction::Down => -1,
            Direction::Up => 1,
            _ => 0,
        }
    }

    /// The column step of the unit vector of the direction.
    pub open spec fn dx(self) -> int {
        match self {
            Direction::Left => -1,
            Direction::Right => 1,
            _ => 0,
        }
    }

    /// Get the opposite direction
    #[verifier::when_used_as_spec(spec_opposite)]
    pub fn opposite(self) -> (r: Direction)
        ensures
            r == self.spec_opposite(),
    {
        match self {
            Direction::Down => Direction::Up,
            Direction::Left => Direction::Right,
            Direction::Right => Direction::Left,
            Direction::Up => Direction::Down,
        }
    }

    /// Get all possible directions
    pub fn directions() -> (r: [Direction; 4])
        ensures
            forall|i: int| 0 <= i < 4 ==> #[trigger] r@[i] == Direction::from_index(i),
    {
        [Direction::Down, Direction::Left, Direction::Right, Direction::Up]
    }

    /// Get the (y,x) coordinates of the normalized vector representing the direction.
    pub fn get_coordinates(self) -> (r: (isize, isize))
        ensures
            r.0 == self.dy(),
            r.1 == self.dx(),
    {
        match self {
            Direction::Down => (-1, 0),
            Direction::Left => (0, -1),
            Direction::Right => (0, 1),
            Direction::Up => (1, 0),
        }
    }

    /// The position of the direction in a `DirArray`.
    pub fn ordinal(self) -> (r: usize)
        ensures
            r == self.index(),
    {
        match self {
            Direction::Down => 0,
            Direction::Left => 1,
            Direction::Right => 2,
            Direction::Up => 3,
        }
    }
}

/// Taking the opposite twice gives the direction back, and the unit vector of
/// the opposite direction is the negated unit vector.
pub proof fn lemma_opposite(d: Direction)
    ensures
        d.opposite().opposite() == d,
        d.opposite() != d,
        d.opposite().dy() == -d.dy(),
        d.opposite().dx() == -d.dx(),
        Direction::from_index(d.index()) == d,
        0 <= d.index() < 4,
{
}

/// An array that is indexed by a direction
#[derive(Debug, PartialEq, Eq, Clone, Copy)]
pub struct DirArray<T> {
    down: T,
    left: T,
    right: T,
    up: T,
}

impl<T> View for DirArray<T> {
    type V = Seq<T>;

    /// The four values, in the order `Down`, `Left`, `Right`, `Up`.
    closed spec fn view(&self) -> Seq<T> {
        seq![self.down, self.left, self.right, self.up]
    }
}

impl<T> DirArray<T> {
    /// The value stored for direction `dir`.
    pub open spec fn at(self, dir: Direction) -> T {
        self@[dir.index()]
    }

    /// Create a new array given a default value that will be assigned to
    /// each direction.
    pub fn new(default: &T) -> (r: DirArray<T>) where T: Clone
        ensures
            forall|d: Direction| cloned(*default, #[trigger] r.at(d)),
    {
        DirArray {
            down: default.clone(),
            left: default.clone(),
            right: default.clone(),
            up: default.clone(),
        }
    }

    /// Create a new array from the value of each direction.
    pub fn from_values(down: T, left: T, right: T, up: T) -> (r: DirArray<T>)
        ensures
            r@ == seq![down, left, right, up],
            r.at(Direction::Down) == down,
            r.at(Direction::Left) == left,
            r.at(Direction::Right) == right,
            r.at(Direction::Up) == up,
    {
        DirArray { down, left, right, up }
    }

    /// Create a new array where the values assigned to each direction
    /// is given by the given generator
    pub fn new_generator<F: Fn(Direction) -> T>(generator: F) -> (r: DirArray<T>)
        requires
            forall|d: Direction| call_requires(generator, (d,)),
        ensures
            forall|d: Direction| call_ensures(generator, (d,), #[trigger] r.at(d)),
    {
        DirArray {
            down: generator(Direction::Down),
            left: generator(Direction::Left),
            right: generator(Direction::Right),
            up: generator(Direction::Up),
        }
    }

    /// Modify the data according to the given closure.
    pub fn map<U, F: Fn(T) -> U>(self, f: F) -> (r: DirArray<U>)
        requires
            forall|d: Direction| call_requires(f, (#[trigger] self.at(d),)),
        ensures
            forall|d: Direction| call_ensures(f, (self.at(d),), #[trigger] r.at(d)),
    {
        proof {
            assert(call_requires(f, (self.at(Direction::Down),)));
            assert(call_requires(f, (self.at(Direction::Left),)));
            assert(call_requires(f, (self.at(Direction::Right),)));
            assert(call_requires(f, (self.at(Direction::Up),)));
        }
        DirArray { down: f(self.down), left: f(self.left), right: f(self.right), up: f(self.up) }
    }

    /// Read the value stored for `dir`.
    pub fn get(&self, dir: Direction) -> (r: &T)
        ensures
            *r == self.at(dir),
    {
        match dir {
            Direction::Down => &self.down,
            Direction::Left => &self.left,
            Direction::Right => &self.right,
            Direction::Up => &self.up,
        }
    }

    /// Replace the value stored for `dir`, leaving the other three as they are.
    pub fn set(&mut self, dir: Direction, value: T)
        ensures
            final(self)@ == old(self)@.update(dir.index(), value),
            forall|d: Direction|
                #[trigger] final(self).at(d) == (if d == dir {
                    value
                } else {
                    old(self).at(d)
                }),
    {
        match dir {
            Direction::Down => { self.down = value; },
            Direction::Left => { self.left = value; },
            Direction::Right => { self.right = value; },
            Direction::Up => { self.up = value; },
        }
        assert(self@ =~= old(self)@.update(dir.index(), value));
    }
}

impl<T> vstd::std_specs::core::IndexSpecImpl<Direction> for DirArray<T> {
    open spec fn index_req(&self, dir: &Direction) -> bool {
        true
    }
}

impl<T> Index<Direction> for DirArray<T> {
    type Output = T;

    fn index(&self, dir: Direction) -> (r: &T)
        ensures
            *r == self.at(dir),
    {
        self.get(dir)
    }
}

impl<T> IndexMut<Direction> for DirArray<T> {
    fn index_mut(&mut self, dir: Direction) -> (r: &mut T)
        ensures
            *r == old(self).at(dir),
            final(self)@ == old(self)@.update(dir.index(), *final(r)),
    {
        match dir {
            Direction::Down => &mut self.down,
            Direction::Left => &mut self.left,
            Direction::Right => &mut self.right,
            Direction::Up => &mut self.up,
        }
    }
}

} // verus!
