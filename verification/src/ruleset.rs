//! The immutable rule configuration read by the grid engine every generation.

use vstd::prelude::*;

verus! {

/// Why a rule configuration was rejected at construction time.
#[derive(Clone, Copy, Debug, PartialEq, Eq, Structural)]
pub enum ConfigError {
    /// `distribution` lies outside the percentage range `[0, 100]`.
    DistributionOutOfRange,
}

/// The thresholds that govern one generation step, plus the seeding density.
///
/// An alive cell dies of isolation when its live-neighbor count is below
/// `starvation`, survives when the count lies in `[living_min, living_max]`,
/// and dies of overcrowding when the count is at least `smothered`. A dead
/// cell becomes alive exactly when the count equals `born`. `distribution`
/// is the percentage of playable cells seeded alive at initialization.
///
/// Threshold values above 8 (the maximum possible neighbor count) are
/// tolerated: they simply make the corresponding transition unreachable.
#[derive(Clone, Copy, Debug, PartialEq, Eq, Structural)]
pub struct Ruleset {
    pub starvation: u8,
    pub living_min: u8,
    pub living_max: u8,
    pub smothered: u8,
    pub born: u8,
    pub distribution: u8,
}

impl Ruleset {
    /// Builds a ruleset, rejecting a seeding percentage outside `[0, 100]`.
    pub fn new(
        starvation: u8,
        living_min: u8,
        living_max: u8,
        smothered: u8,
        born: u8,
        distribution: u8,
    ) -> (r: Result<Ruleset, ConfigError>)
        ensures
            distribution <= 100 ==> r == Ok::<Ruleset, ConfigError>(
                Ruleset { starvation, living_min, living_max, smothered, born, distribution },
            ),
            distribution > 100 ==> r == Err::<Ruleset, ConfigError>(
                ConfigError::DistributionOutOfRange,
            ),
    {
        if distribution > 100 {
            Err(ConfigError::DistributionOutOfRange)
        } else {
            Ok(Ruleset { starvation, living_min, living_max, smothered, born, distribution })
        }
    }
}

impl Default for Ruleset {
    /// The classic Life preset: survive on 2 or 3 neighbors, be born on
    /// exactly 3, and seed 30% of the playable cells.
    fn default() -> (r: Self)
        ensures
            r == (Ruleset {
                starvation: 2,
                living_min: 2,
                living_max: 3,
                smothered: 4,
                born: 3,
                distribution: 30,
            }),
    {
        Ruleset {
            starvation: 2,
            living_min: 2,
            living_max: 3,
            smothered: 4,
            born: 3,
            distribution: 30,
        }
    }
}

} // verus!
