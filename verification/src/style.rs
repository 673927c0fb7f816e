//! Which look the water takes.

use vstd::prelude::*;

verus! {

/// The two looks a player can choose between.
#[derive(Clone, Copy, Debug, PartialEq, Eq, Structural)]
pub enum WaterStyle {
    /// The game's own water: a depth swatch, an animated sheet and a sheen.
    Reference,
    /// Ripples, reflection, absorption and a wake that is water moving.
    Stylised,
}

} // verus!
