//! Texas Hold'em hand evaluation and Monte Carlo equity engine.

pub mod card;
pub mod eval;
pub mod table;
