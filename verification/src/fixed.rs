//! Integer newtypes for prices, quantities and money.

use vstd::prelude::*;

verus! {

/// A price in units of an instrument's tick.
#[derive(Clone, Copy, PartialEq, Eq, PartialOrd, Ord, Hash, Debug, Default, Structural)]
pub struct Ticks(pub i64);

/// A quantity in units of an instrument's lot.
#[derive(Clone, Copy, PartialEq, Eq, PartialOrd, Ord, Hash, Debug, Default, Structural)]
pub struct Lots(pub i64);

/// An amount of money in micro-dollars.
#[derive(Clone, Copy, PartialEq, Eq, PartialOrd, Ord, Hash, Debug, Default, Structural)]
pub struct Micro(pub i128);

impl Micro {
    /// No money at all.
    pub fn zero() -> (none: Micro)
        ensures
            none.0 == 0,
    {
        Micro(0)
    }
}

} // verus!
