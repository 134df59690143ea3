//! Monte Carlo evaluation and local search of card decks by their cost curve.
pub mod shadow_cost;
