//! Blackjack: card scoring, a multi-deck shoe, and the round engine that
//! plays a player's hands against the dealer and settles the wager.
pub mod card;
pub mod round;
