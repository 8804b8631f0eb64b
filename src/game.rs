//! The records of a game: moves, rounds and cells, with their spec views.
use crate::address::Address;
use crate::amount::Amount;
use vstd::prelude::*;

verus! {

/// A participant's choice in one round.
#[derive(Clone, Copy, Debug, PartialEq, Eq, Structural)]
pub enum Move {
    Cooperate,
    Defect,
}

/// The move that a submitted byte stands for: zero cooperates, any other
/// byte defects.
pub open spec fn move_of_byte(value: u8) -> Move {
    if value == 0 {
        Move::Cooperate
    } else {
        Move::Defect
    }
}

impl From<u8> for Move {
    fn from(value: u8) -> (r: Move)
        ensures
            r == move_of_byte(value),
    {
        if value == 0 {
            Move::Cooperate
        } else {
            Move::Defect
        }
    }
}

impl vstd::std_specs::convert::FromSpecImpl<u8> for Move {
    open spec fn obeys_from_spec() -> bool {
        true
    }

    open spec fn from_spec(value: u8) -> Move {
        move_of_byte(value)
    }
}

impl Move {
    /// The move as a number: 0 for cooperate, 1 for defect.
    pub open spec fn code(self) -> u8 {
        match self {
            Move::Cooperate => 0,
            Move::Defect => 1,
        }
    }

    /// The move as a number: 0 for cooperate, 1 for defect.
    pub fn to_u8(self) -> (r: u8)
        ensures
            r == self.code(),
    {
        match self {
            Move::Cooperate => 0,
            Move::Defect => 1,
        }
    }
}

/// One simultaneous exchange of moves, with its payouts once both are in.
#[derive(Clone, Copy, Debug, PartialEq, Eq)]
pub struct Round {
    pub player1_move: Option<Move>,
    pub player2_move: Option<Move>,
    pub player1_payout: Amount,
    pub player2_payout: Amount,
    pub is_finished: bool,
}

/// A round with its amounts as byte strings.
pub struct RoundView {
    pub player1_move: Option<Move>,
    pub player2_move: Option<Move>,
    pub player1_payout: Seq<u8>,
    pub player2_payout: Seq<u8>,
    pub is_finished: bool,
}

impl View for Round {
    type V = RoundView;

    open spec fn view(&self) -> RoundView {
        RoundView {
            player1_move: self.player1_move,
            player2_move: self.player2_move,
            player1_payout: self.player1_payout.bytes@,
            player2_payout: self.player2_payout.bytes@,
            is_finished: self.is_finished,
        }
    }
}

/// The 32 zero bytes of the amount zero.
pub open spec fn zero_amount() -> Seq<u8> {
    Seq::new(32, |i: int| 0u8)
}

/// A round that no one has moved in yet.
pub open spec fn empty_round() -> RoundView {
    RoundView {
        player1_move: None,
        player2_move: None,
        player1_payout: zero_amount(),
        player2_payout: zero_amount(),
        is_finished: false,
    }
}

impl Round {
    /// A round that no one has moved in yet.
    pub fn new() -> (r: Round)
        ensures
            r@ == empty_round(),
    {
        Round {
            player1_move: None,
            player2_move: None,
            player1_payout: Amount::zero(),
            player2_payout: Amount::zero(),
            is_finished: false,
        }
    }
}

/// One game between two participants, over one or more rounds.
#[derive(Debug, PartialEq, Eq)]
pub struct Cell {
    pub player1: Address,
    pub player2: Address,
    pub stake_amount: Amount,
    pub total_rounds: u8,
    pub current_round: u8,
    pub is_complete: bool,
    pub rounds: Vec<Round>,
    pub continuation_flags: u8,
}

/// A cell with its identities and amounts as byte strings and its rounds as
/// a sequence.
pub struct CellView {
    pub player1: Seq<u8>,
    pub player2: Seq<u8>,
    pub stake_amount: Seq<u8>,
    pub total_rounds: u8,
    pub current_round: u8,
    pub is_complete: bool,
    pub rounds: Seq<RoundView>,
    pub continuation_flags: u8,
}

impl View for Cell {
    type V = CellView;

    open spec fn view(&self) -> CellView {
        CellView {
            player1: self.player1@,
            player2: self.player2@,
            stake_amount: self.stake_amount.bytes@,
            total_rounds: self.total_rounds,
            current_round: self.current_round,
            is_complete: self.is_complete,
            rounds: self.rounds@.map_values(|r: Round| r@),
            continuation_flags: self.continuation_flags,
        }
    }
}

} // verus!
