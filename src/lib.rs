//! A two-party, multi-round prisoner's dilemma with escrowed stakes.
//!
//! The library holds the game's logic: the payoff rule, the byte layout in
//! which a cell is stored, the state machine of a cell and the keyed stores
//! that bind participants to cells. Value transfer, caller identity and the
//! host environment are left to the embedding program.
pub mod address;
pub mod amount;
pub mod codec;
pub mod contract;
pub mod game;
pub mod machine;
pub mod payoff;
pub mod store;

pub use address::{hash_players, Address};
pub use amount::Amount;
pub use codec::{deserialize_cell, serialize_cell};
pub use contract::{round_entropy, PrisonersDilemma};
pub use game::{Cell, Move, Round};
pub use machine::{GameError, MoveOutcome, Payment, VoteOutcome};
pub use payoff::payoff;
