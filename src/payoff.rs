//! The payoff rule of one round.
use crate::amount::{modulus, Amount};
use crate::game::Move;
use vstd::prelude::*;

verus! {

/// The payouts of a round with stake `s`, as numbers. Mutual cooperation
/// returns each stake, mutual defection half of it, and a defector against a
/// cooperator takes one and a half stakes (wrapped at 2^256) while the
/// cooperator keeps half.
pub open spec fn payoff_values(move1: Move, move2: Move, s: nat) -> (nat, nat) {
    match (move1, move2) {
        (Move::Cooperate, Move::Cooperate) => (s, s),
        (Move::Defect, Move::Defect) => (s / 2, s / 2),
        (Move::Cooperate, Move::Defect) => (s / 2, (s + s / 2) % modulus()),
        (Move::Defect, Move::Cooperate) => ((s + s / 2) % modulus(), s / 2),
    }
}

/// The payouts of the two participants of a round.
pub fn payoff(move1: Move, move2: Move, stake: &Amount) -> (r: (Amount, Amount))
    ensures
        (r.0.value(), r.1.value()) == payoff_values(move1, move2, stake.value()),
{
    match (move1, move2) {
        (Move::Cooperate, Move::Cooperate) => (*stake, *stake),
        (Move::Defect, Move::Defect) => {
            let h = stake.half();
            (h, h)
        },
        (Move::Cooperate, Move::Defect) => {
            let h = stake.half();
            (h, stake.wrapping_add(&h))
        },
        (Move::Defect, Move::Cooperate) => {
            let h = stake.half();
            (stake.wrapping_add(&h), h)
        },
    }
}

} // verus!
