//! Belief-state tracking for the hidden color and value of a card.
pub mod cards;
pub mod info;
