//! Choices that the user makes.

use vstd::prelude::*;

verus! {

/// The direction in which the ends of kept ranges are moved to sync samples.
#[derive(Debug, Clone, Copy, PartialEq, Eq, Structural)]
pub enum Snap {
    /// Ranges grow: nothing of the programme is lost, some of the commercials may stay.
    Outward,
    /// Ranges shrink: nothing of the commercials stays, some of the programme may be lost.
    Inward,
}

} // verus!
