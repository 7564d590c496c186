//! Per-cell terrain flags.
//!
//! A cell is exactly one of wall or space, and a space cell may additionally
//! be marked valid by the pull-reachability analysis: a crate resting on a
//! valid cell can still, in principle, be brought to a target.

use vstd::prelude::*;

verus! {

/// The terrain classification of one board cell.
#[derive(Clone, Copy, Debug, PartialEq, Eq, Structural)]
pub enum Flags {
    /// An impassable wall cell.
    Wall,
    /// A space cell that the pull analysis proved no crate can ever leave.
    Space,
    /// A space cell on which a crate may legally rest.
    Valid,
}

impl Flags {
    pub open spec fn spec_is_wall(&self) -> bool {
        *self == Flags::Wall
    }

    pub open spec fn spec_is_space(&self) -> bool {
        *self != Flags::Wall
    }

    pub open spec fn spec_is_valid(&self) -> bool {
        *self == Flags::Valid
    }

    #[verifier::when_used_as_spec(spec_is_wall)]
    pub fn is_wall(&self) -> (r: bool)
        ensures
            r == self.spec_is_wall(),
    {
        *self == Flags::Wall
    }

    #[verifier::when_used_as_spec(spec_is_space)]
    pub fn is_space(&self) -> (r: bool)
        ensures
            r == self.spec_is_space(),
    {
        *self != Flags::Wall
    }

    #[verifier::when_used_as_spec(spec_is_valid)]
    pub fn is_valid(&self) -> (r: bool)
        ensures
            r == self.spec_is_valid(),
    {
        *self == Flags::Valid
    }

    /// The character used for this cell when a bare board is rendered.
    pub fn as_str(&self) -> (s: &'static str)
        ensures
            self.spec_is_wall() ==> s@ == "#"@,
            !self.spec_is_wall() ==> s@ == " "@,
    {
        if self.is_wall() {
            "#"
        } else {
            " "
        }
    }
}

} // verus!
