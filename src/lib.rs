//! Player-statistics analysis: a loader for comma-separated player records,
//! the feature matrix and target vector built from them, and exact integer
//! terms of the Pearson correlation between each feature and the target.

mod record;
pub mod field;
pub mod loader;
pub mod stats;

pub use record::{
    PlayerRecord, ATTACK_WINS_COLUMN, BUILDER_TROPHIES_COLUMN, DEFENSE_WINS_COLUMN,
    DONATIONS_COLUMN, FIELDS_NEEDED, TROPHIES_COLUMN,
};
