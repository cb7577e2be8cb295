//! The bounds that a dice term has to stay under.

use vstd::prelude::*;

verus! {

/// The integer type of dice counts, faces and totals.
pub type DiceInt = i32;

/// A term rolls fewer dice than this, unless told otherwise.
pub const MAX_ROLLED_DICE: DiceInt = 500;

/// A die has fewer sides than this, unless told otherwise.
pub const MAX_DICE_SIDES: DiceInt = 10_000;

/// A term makes at most this many draws, unless told otherwise.
pub const MAX_DRAWS: usize = 100_000;

/// The bounds in force for one evaluation. They are values handed to each
/// call, so that they can be set where the library is used.
#[derive(Clone, Copy, Debug, PartialEq, Eq, Structural)]
pub struct Limits {
    /// The number of dice in a term is below this.
    pub max_rolled_dice: DiceInt,
    /// The number of sides of a die is below this.
    pub max_dice_sides: DiceInt,
    /// A term that needs more draws than this fails. Exploding and
    /// compounding dice make extra draws, and a die whose every face is its
    /// highest would otherwise never stop.
    pub max_draws: usize,
}

impl Limits {
    /// The bounds used when none are given.
    pub open spec fn standard_spec() -> Limits {
        Limits {
            max_rolled_dice: MAX_ROLLED_DICE,
            max_dice_sides: MAX_DICE_SIDES,
            max_draws: MAX_DRAWS,
        }
    }

    /// The bounds used when none are given.
    #[verifier::when_used_as_spec(standard_spec)]
    pub fn standard() -> (limits: Limits)
        ensures
            limits == Limits::standard_spec(),
    {
        Limits {
            max_rolled_dice: MAX_ROLLED_DICE,
            max_dice_sides: MAX_DICE_SIDES,
            max_draws: MAX_DRAWS,
        }
    }
}

impl Default for Limits {
    fn default() -> (limits: Limits)
        ensures
            limits == Limits::standard_spec(),
    {
        Limits::standard()
    }
}

} // verus!
