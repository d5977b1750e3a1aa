//! Solo Yahtzee state model: packed dice, packed scorecard slots, scoring,
//! the lookup tables of roll outcomes, and the decisions of the bottom-up
//! expected-value solver.

pub mod combinatorics;
pub mod counting;
pub mod dievals;
pub mod distribution;
pub mod enumeration;
pub mod game_state;
pub mod lookups;
pub mod roll_weights;
pub mod score;
pub mod selections;
pub mod solver;
pub mod state_counts;
pub mod sorted_slots;
pub mod tables;
pub mod text;
pub mod upper_totals;

pub use dievals::{DieVal, DieVals};
pub use score::Score;
pub use sorted_slots::{Slot, SortedSlots};
