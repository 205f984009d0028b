//! Priority levels of configuration sources.

use vstd::prelude::*;

verus! {

/// The priority tier of a configuration source, listed from the least to the
/// most authoritative. When two sources define the same name, the one at
/// the higher level wins.
#[derive(Clone, Copy, Debug, PartialEq, Eq, Structural, PartialOrd, Ord, Hash)]
pub enum ConfigLevel {
    /// Settings of the whole machine.
    SystemWide,
    /// Machine settings kept in the shared application-data location.
    ProgramData,
    /// The user's file in the XDG configuration directory.
    Xdg,
    /// The user's file in the home directory.
    Global,
    /// Settings of one repository.
    Local,
    /// Settings of the running application.
    App,
    /// Settings that take precedence over every other level.
    Override,
}

impl ConfigLevel {
    /// The position of the level in the order of authority, from 0 for
    /// `SystemWide` to 6 for `Override`.
    pub open spec fn rank(self) -> nat {
        match self {
            ConfigLevel::SystemWide => 0,
            ConfigLevel::ProgramData => 1,
            ConfigLevel::Xdg => 2,
            ConfigLevel::Global => 3,
            ConfigLevel::Local => 4,
            ConfigLevel::App => 5,
            ConfigLevel::Override => 6,
        }
    }

    /// The executable form of `rank`.
    pub fn priority(self) -> (r: u8)
        ensures
            r == self.rank(),
    {
        match self {
            ConfigLevel::SystemWide => 0,
            ConfigLevel::ProgramData => 1,
            ConfigLevel::Xdg => 2,
            ConfigLevel::Global => 3,
            ConfigLevel::Local => 4,
            ConfigLevel::App => 5,
            ConfigLevel::Override => 6,
        }
    }

    /// Whether `self` is strictly more authoritative than `other`.
    pub fn outranks(self, other: ConfigLevel) -> (r: bool)
        ensures
            r == (self.rank() > other.rank()),
    {
        self.priority() > other.priority()
    }

    /// Whether the two levels are the same.
    pub fn same(self, other: ConfigLevel) -> (r: bool)
        ensures
            r == (self == other),
    {
        self.priority() == other.priority()
    }
}

/// The order of levels is total: two levels of equal rank are the same level,
/// and every rank lies below 7.
pub proof fn level_order_is_total(a: ConfigLevel, b: ConfigLevel)
    ensures
        a.rank() < 7,
        a.rank() == b.rank() <==> a == b,
        a.rank() < b.rank() || a == b || b.rank() < a.rank(),
{
}

} // verus!
