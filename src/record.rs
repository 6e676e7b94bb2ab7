use vstd::prelude::*;

verus! {

/// Position of the attack-wins count in a raw row.
pub const ATTACK_WINS_COLUMN: usize = 5;

/// Position of the defense-wins count in a raw row.
pub const DEFENSE_WINS_COLUMN: usize = 6;

/// Position of the trophy count (the regression target) in a raw row.
pub const TROPHIES_COLUMN: usize = 10;

/// Position of the donations count in a raw row.
pub const DONATIONS_COLUMN: usize = 12;

/// Position of the builder-hall trophy count in a raw row.
pub const BUILDER_TROPHIES_COLUMN: usize = 15;

/// A raw row must hold at least this many fields: one past the highest
/// position read.
pub const FIELDS_NEEDED: usize = 16;

/// One row of player statistics; every field is a count.
#[derive(Debug, Clone, Copy, PartialEq, Eq, Structural)]
pub struct PlayerRecord {
    pub attack_wins: usize,
    pub defense_wins: usize,
    pub donations: usize,
    pub builder_tropies: usize,
    pub trophies: usize,
}

} // verus!
