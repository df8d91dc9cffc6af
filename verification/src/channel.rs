//! The colour channels by which a colour triple is indexed.

use vstd::prelude::*;

verus! {

/// A colour channel: red, green or blue.
#[derive(Clone, Copy, Debug, PartialEq, Eq, Structural)]
pub enum Channel {
    R,
    G,
    B,
}

impl Channel {
    /// The component of a colour triple that this channel names: indexing a
    /// colour by `R`, `G` or `B` reads its first, second or third component.
    pub fn select<T>(self, r: T, g: T, b: T) -> (component: T)
        ensures
            self == Channel::R ==> component == r,
            self == Channel::G ==> component == g,
            self == Channel::B ==> component == b,
    {
        match self {
            Channel::R => r,
            Channel::G => g,
            Channel::B => b,
        }
    }
}

} // verus!
