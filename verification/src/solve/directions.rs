//! The four cardinal directions and a small record holding one value per
//! direction.

use vstd::prelude::*;

verus! {

/// A cardinal direction on the grid.
#[derive(Clone, Copy, Debug, PartialEq, Eq, Structural)]
pub enum Dir {
    North,
    East,
    South,
    West,
}

/// The direction opposite to `d`.
pub open spec fn flip(d: Dir) -> Dir {
    match d {
        Dir::North => Dir::South,
        Dir::East => Dir::West,
        Dir::South => Dir::North,
        Dir::West => Dir::East,
    }
}

/// The direction `d` rotated a quarter turn clockwise.
pub open spec fn clockwise(d: Dir) -> Dir {
    match d {
        Dir::North => Dir::East,
        Dir::East => Dir::South,
        Dir::South => Dir::West,
        Dir::West => Dir::North,
    }
}

impl Dir {
    /// All four directions, in the fixed enumeration order North, East,
    /// South, West. The order is part of the solver's determinism guarantee.
    pub fn iter() -> (v: Vec<Dir>)
        ensures
            v@ =~= seq![Dir::North, Dir::East, Dir::South, Dir::West],
    {
        let mut v: Vec<Dir> = Vec::new();
        v.push(Dir::North);
        v.push(Dir::East);
        v.push(Dir::South);
        v.push(Dir::West);
        v
    }

    /// Returns the opposite direction. Eg. North <-> South, East <-> West.
    #[verifier::when_used_as_spec(flip_spec)]
    pub fn opposite(&self) -> (r: Dir)
        ensures
            r == flip(*self),
    {
        match self {
            Dir::North => Dir::South,
            Dir::East => Dir::West,
            Dir::South => Dir::North,
            Dir::West => Dir::East,
        }
    }

    /// Returns the direction rotated 90 degrees clockwise.
    #[verifier::when_used_as_spec(clockwise_spec)]
    pub fn rotation(&self) -> (r: Dir)
        ensures
            r == clockwise(*self),
    {
        match self {
            Dir::North => Dir::East,
            Dir::East => Dir::South,
            Dir::South => Dir::West,
            Dir::West => Dir::North,
        }
    }

    pub open spec fn flip_spec(&self) -> Dir {
        flip(*self)
    }

    pub open spec fn clockwise_spec(&self) -> Dir {
        clockwise(*self)
    }
}

/// One value of type `T` for each direction.
#[derive(Clone, Copy, Debug, PartialEq, Eq, Structural)]
pub struct DirHolder<T> {
    pub north: T,
    pub east: T,
    pub south: T,
    pub west: T,
}

/// The field of `h` selected by `d`.
pub open spec fn dir_field<T>(h: DirHolder<T>, d: Dir) -> T {
    match d {
        Dir::North => h.north,
        Dir::East => h.east,
        Dir::South => h.south,
        Dir::West => h.west,
    }
}

impl<T: Copy> DirHolder<T> {
    /// A holder with the same value in every direction.
    pub fn uniform(val: T) -> (r: Self)
        ensures
            forall|d: Dir| dir_field(r, d) == val,
    {
        DirHolder { north: val, east: val, south: val, west: val }
    }

    /// The value stored for direction `dir`.
    pub fn get(&self, dir: Dir) -> (r: T)
        ensures
            r == dir_field(*self, dir),
    {
        match dir {
            Dir::North => self.north,
            Dir::East => self.east,
            Dir::South => self.south,
            Dir::West => self.west,
        }
    }

    /// Stores `val` for direction `dir`, leaving the other directions as
    /// they were.
    pub fn set(&mut self, dir: Dir, val: T)
        ensures
            dir_field(*final(self), dir) == val,
            forall|d: Dir| d != dir ==> dir_field(*final(self), d) == dir_field(*old(self), d),
    {
        match dir {
            Dir::North => self.north = val,
            Dir::South => self.south = val,
            Dir::East => self.east = val,
            Dir::West => self.west = val,
        }
    }

    /// All four entries as `(direction, value)` pairs, in the fixed
    /// enumeration order North, East, South, West.
    pub fn iter(&self) -> (v: Vec<(Dir, T)>)
        ensures
            v@ =~= seq![
                (Dir::North, dir_field(*self, Dir::North)),
                (Dir::East, dir_field(*self, Dir::East)),
                (Dir::South, dir_field(*self, Dir::South)),
                (Dir::West, dir_field(*self, Dir::West)),
            ],
    {
        let mut v: Vec<(Dir, T)> = Vec::new();
        v.push((Dir::North, self.north));
        v.push((Dir::East, self.east));
        v.push((Dir::South, self.south));
        v.push((Dir::West, self.west));
        v
    }
}

} // verus!
