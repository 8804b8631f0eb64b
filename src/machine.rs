//! The state machine of one cell: joining, moves, round resolution, the
//! continuation vote and settlement.
use crate::address::{zero_address, Address};
use crate::amount::{
    amount_bytes, be_value, lemma_amount_bytes, lemma_amount_bytes_value, lemma_be_bytes,
    lemma_be_value_bound, lemma_be_value_injective, modulus, Amount,
};
use crate::codec::{cell_encodable, default_cell, round_encodable};
use crate::game::{empty_round, zero_amount, Cell, CellView, Move, Round, RoundView};
use crate::payoff::{payoff, payoff_values};
use vstd::arithmetic::div_mod::{lemma_mod_bound, lemma_small_mod};
use vstd::arithmetic::power::lemma_pow_positive;
use vstd::prelude::*;

verus! {

/// Why an operation was refused. A refused operation changes nothing.
#[derive(Clone, Copy, Debug, PartialEq, Eq, Structural)]
pub enum GameError {
    StakeTooLow,
    AlreadyInCell,
    CellFull,
    WrongStake,
    CellIsComplete,
    NeedPlayer2,
    NotInCell,
    NoRoundStarted,
    RoundNotReady,
    RoundAlreadyFinished,
    AlreadyMoved,
    MaxRoundsReached,
    NoSuchCell,
}

/// A transfer owed to a participant when a cell settles.
#[derive(Clone, Copy, Debug, PartialEq, Eq)]
pub struct Payment {
    pub to: Address,
    pub amount: Amount,
}

impl View for Payment {
    type V = (Seq<u8>, nat);

    open spec fn view(&self) -> (Seq<u8>, nat) {
        (self.to@, self.amount.value())
    }
}

/// What an accepted move led to.
#[derive(Debug)]
pub enum MoveOutcome {
    /// The move was recorded; the other participant has yet to move.
    Recorded,
    /// Both moves are in and the round is paid out; a vote comes next.
    RoundFinished,
    /// The final round was paid out and the cell settled with these payments.
    CellCompleted(Vec<Payment>),
}

/// What an accepted continuation vote led to.
#[derive(Debug)]
pub enum VoteOutcome {
    /// The other participant has yet to decide.
    Pending,
    /// Both want to go on: a new round is open.
    NextRound,
    /// The vote ended the cell, which settled with these payments.
    CellCompleted(Vec<Payment>),
}

/// The payments of a settlement, as (recipient, amount) pairs.
pub open spec fn payments_view(ps: Seq<Payment>) -> Seq<(Seq<u8>, nat)> {
    ps.map_values(|p: Payment| p@)
}

// ---------------------------------------------------------------------------
// Settlement

/// The sum, wrapped at 2^256, of one participant's payouts over the finished
/// rounds.
pub open spec fn payout_total(rs: Seq<RoundView>, first: bool) -> nat
    decreases rs.len(),
{
    if rs.len() == 0 {
        0
    } else {
        let r = rs.last();
        let x = if !r.is_finished {
            0
        } else if first {
            be_value(r.player1_payout)
        } else {
            be_value(r.player2_payout)
        };
        (payout_total(rs.drop_last(), first) + x) % modulus()
    }
}

/// One payment to each participant whose total is not zero, the first
/// participant's first.
pub open spec fn settlement(c: CellView) -> Seq<(Seq<u8>, nat)> {
    let t1 = payout_total(c.rounds, true);
    let t2 = payout_total(c.rounds, false);
    (if t1 > 0 {
        seq![(c.player1, t1)]
    } else {
        Seq::empty()
    }) + (if t2 > 0 {
        seq![(c.player2, t2)]
    } else {
        Seq::empty()
    })
}

// ---------------------------------------------------------------------------
// Moves

/// Which error, if any, refuses a move by `caller`.
pub open spec fn move_error(c: CellView, caller: Seq<u8>) -> Option<GameError> {
    if c.is_complete {
        Some(GameError::CellIsComplete)
    } else if c.player2 == zero_address() {
        Some(GameError::NeedPlayer2)
    } else if caller != c.player1 && caller != c.player2 {
        Some(GameError::NotInCell)
    } else if c.current_round == 0 {
        Some(GameError::NoRoundStarted)
    } else if c.current_round - 1 >= c.rounds.len() {
        Some(GameError::RoundNotReady)
    } else if c.rounds[c.current_round - 1].is_finished {
        Some(GameError::RoundAlreadyFinished)
    } else if caller == c.player1 && c.rounds[c.current_round - 1].player1_move is Some {
        Some(GameError::AlreadyMoved)
    } else if caller != c.player1 && c.rounds[c.current_round - 1].player2_move is Some {
        Some(GameError::AlreadyMoved)
    } else {
        None
    }
}

/// The round with a move put in the first or the second participant's slot.
pub open spec fn place_move(r: RoundView, first: bool, m: Move) -> RoundView {
    if first {
        RoundView { player1_move: Some(m), ..r }
    } else {
        RoundView { player2_move: Some(m), ..r }
    }
}

/// A round with both moves in, finished and paid out from the stake.
pub open spec fn resolve(r: RoundView, stake: Seq<u8>) -> RoundView {
    let (x1, x2) = payoff_values(r.player1_move->0, r.player2_move->0, be_value(stake));
    RoundView {
        player1_payout: amount_bytes(x1),
        player2_payout: amount_bytes(x2),
        is_finished: true,
        ..r
    }
}

/// Whether a round has both moves.
pub open spec fn both_moved(r: RoundView) -> bool {
    r.player1_move is Some && r.player2_move is Some
}

/// The cell after an accepted move by `caller`. The second move of a round
/// resolves it; resolving the final round completes the cell, any other
/// clears the vote flags.
pub open spec fn after_move(c: CellView, caller: Seq<u8>, m: Move) -> CellView {
    let idx = c.current_round - 1;
    let r = place_move(c.rounds[idx], caller == c.player1, m);
    if both_moved(r) {
        let done = CellView { rounds: c.rounds.update(idx, resolve(r, c.stake_amount)), ..c };
        if c.current_round >= c.total_rounds {
            CellView { is_complete: true, ..done }
        } else {
            CellView { continuation_flags: 0, ..done }
        }
    } else {
        CellView { rounds: c.rounds.update(idx, r), ..c }
    }
}

// ---------------------------------------------------------------------------
// Continuation vote

/// Which error, if any, refuses a vote by `caller`.
pub open spec fn vote_error(c: CellView, caller: Seq<u8>) -> Option<GameError> {
    if c.is_complete {
        Some(GameError::CellIsComplete)
    } else if caller != c.player1 && caller != c.player2 {
        Some(GameError::NotInCell)
    } else if c.current_round >= c.total_rounds {
        Some(GameError::MaxRoundsReached)
    } else {
        None
    }
}

/// The vote flags after one participant's vote: bit 0 or 1 is that
/// participant's wish to continue, bit 2 or 3 that they have decided.
pub open spec fn vote_flags(flags: u8, first: bool, wants: bool) -> u8 {
    if first {
        (if wants {
            flags | 1
        } else {
            flags & !1u8
        }) | 4
    } else {
        (if wants {
            flags | 2
        } else {
            flags & !2u8
        }) | 8
    }
}

/// One participant's decision as the vote flags hold it: none yet, or
/// whether they want to continue.
pub open spec fn decision(flags: u8, first: bool) -> Option<bool> {
    let (want, decided) = if first {
        (1u8, 4u8)
    } else {
        (2u8, 8u8)
    };
    if flags & decided == 0 {
        None
    } else {
        Some(flags & want != 0)
    }
}

/// A vote records the voter's decision, overwriting an earlier one, and
/// leaves the other participant's decision as it was.
pub proof fn lemma_vote_records_decision(flags: u8, first: bool, wants: bool)
    ensures
        decision(vote_flags(flags, first, wants), first) == Some(wants),
        decision(vote_flags(flags, first, wants), !first) == decision(flags, !first),
        both_decided(vote_flags(flags, first, wants)) == (decision(flags, !first) is Some),
{
    let f = flags;
    if first {
        let g = vote_flags(f, first, wants);
        assert(g & 4 != 0 && (g & 1 != 0) == wants && g & 8 == f & 8 && g & 2 == f & 2)
            by (bit_vector)
            requires
                g == (if wants {
                    f | 1
                } else {
                    f & !1u8
                }) | 4,
        ;
    } else {
        let g = vote_flags(f, first, wants);
        assert(g & 8 != 0 && (g & 2 != 0) == wants && g & 4 == f & 4 && g & 1 == f & 1)
            by (bit_vector)
            requires
                g == (if wants {
                    f | 2
                } else {
                    f & !2u8
                }) | 8,
        ;
    }
}

/// Whether both participants have decided.
pub open spec fn both_decided(flags: u8) -> bool {
    flags & 4 != 0 && flags & 8 != 0
}

/// Whether both participants want to continue.
pub open spec fn both_continue(flags: u8) -> bool {
    flags & 1 != 0 && flags & 2 != 0
}

/// The cell after an accepted vote. Once both have decided the vote resolves
/// and its flags return to zero: a new round opens if both want to go on,
/// else the cell completes.
pub open spec fn after_vote(c: CellView, caller: Seq<u8>, wants: bool) -> CellView {
    let f = vote_flags(c.continuation_flags, caller == c.player1, wants);
    if !both_decided(f) {
        CellView { continuation_flags: f, ..c }
    } else if both_continue(f) && c.current_round < c.total_rounds {
        CellView {
            current_round: (c.current_round + 1) as u8,
            rounds: c.rounds.push(empty_round()),
            continuation_flags: 0,
            ..c
        }
    } else {
        CellView { is_complete: true, continuation_flags: 0, ..c }
    }
}

// ---------------------------------------------------------------------------
// Creation and joining

/// A fresh cell of `creator` with the given stake and round target, waiting
/// for a second participant.
pub open spec fn new_cell(creator: Seq<u8>, stake: Seq<u8>, total_rounds: u8) -> CellView {
    CellView {
        player1: creator,
        player2: zero_address(),
        stake_amount: stake,
        total_rounds,
        current_round: 0,
        is_complete: false,
        rounds: Seq::empty(),
        continuation_flags: 0,
    }
}

/// The round target that an entropy value gives: 1 to 10.
pub open spec fn rounds_from_entropy(entropy: u64) -> u8 {
    (entropy % 10 + 1) as u8
}

/// Which error, if any, refuses a join with this stake.
pub open spec fn join_error(c: CellView, stake: Seq<u8>) -> Option<GameError> {
    if c.player2 != zero_address() {
        Some(GameError::CellFull)
    } else if stake != c.stake_amount {
        Some(GameError::WrongStake)
    } else {
        None
    }
}

/// The cell after `joiner` joined: the first round is open.
pub open spec fn after_join(c: CellView, joiner: Seq<u8>) -> CellView {
    CellView { player2: joiner, current_round: 1, rounds: c.rounds.push(empty_round()), ..c }
}

impl Cell {
    /// A fresh cell of `creator` waiting for a second participant, with a
    /// round target of 1 to 10 taken from `entropy`.
    pub fn new(creator: Address, stake: Amount, entropy: u64) -> (r: Cell)
        ensures
            r@ == new_cell(creator@, stake.bytes@, rounds_from_entropy(entropy)),
    {
        let total_rounds = (entropy % 10 + 1) as u8;
        let r = Cell {
            player1: creator,
            player2: Address::zero(),
            stake_amount: stake,
            total_rounds,
            current_round: 0,
            is_complete: false,
            rounds: Vec::new(),
            continuation_flags: 0,
        };
        assert(r@.rounds =~= Seq::<RoundView>::empty());
        r
    }

    /// Which error, if any, refuses a join with this stake.
    pub fn check_join(&self, stake: &Amount) -> (r: Option<GameError>)
        ensures
            r == join_error(self@, stake.bytes@),
    {
        if !self.player2.is_zero() {
            return Some(GameError::CellFull);
        }
        if !stake.same(&self.stake_amount) {
            return Some(GameError::WrongStake);
        }
        None
    }

    /// Takes `joiner` as second participant and opens the first round.
    pub fn join(&mut self, joiner: Address)
        ensures
            final(self)@ == after_join(old(self)@, joiner@),
    {
        self.player2 = joiner;
        self.current_round = 1;
        self.rounds.push(Round::new());
        assert(self@.rounds =~= old(self)@.rounds.push(empty_round()));
    }

    /// The payments of the cell as it stands: each participant's payouts
    /// over the finished rounds, skipping a zero total.
    pub fn settle(&self) -> (r: Vec<Payment>)
        ensures
            payments_view(r@) == settlement(self@),
    {
        let ghost rs = self@.rounds;
        let mut t1 = Amount::zero();
        let mut t2 = Amount::zero();
        let mut i: usize = 0;
        while i < self.rounds.len()
            invariant
                i <= self.rounds@.len(),
                rs == self@.rounds,
                t1.value() == payout_total(rs.take(i as int), true),
                t2.value() == payout_total(rs.take(i as int), false),
            decreases self.rounds@.len() - i,
        {
            let r = &self.rounds[i];
            assert(rs.take(i + 1).drop_last() =~= rs.take(i as int));
            assert(rs.take(i + 1).last() == r@);
            if r.is_finished {
                t1 = t1.wrapping_add(&r.player1_payout);
                t2 = t2.wrapping_add(&r.player2_payout);
            } else {
                proof {
                    lemma_payout_total_bound(rs.take(i as int), true);
                    lemma_payout_total_bound(rs.take(i as int), false);
                    lemma_small_mod(t1.value(), modulus());
                    lemma_small_mod(t2.value(), modulus());
                }
            }
            assert(t1.value() == payout_total(rs.take(i + 1), true));
            assert(t2.value() == payout_total(rs.take(i + 1), false));
            i = i + 1;
        }
        assert(rs.take(i as int) =~= rs);
        let mut ps: Vec<Payment> = Vec::new();
        if !t1.is_zero() {
            ps.push(Payment { to: self.player1, amount: t1 });
        }
        if !t2.is_zero() {
            ps.push(Payment { to: self.player2, amount: t2 });
        }
        assert(payments_view(ps@) =~= settlement(self@));
        ps
    }

    /// Marks the cell complete and returns its settlement.
    pub fn complete_cell(&mut self) -> (r: Vec<Payment>)
        ensures
            final(self)@ == (CellView { is_complete: true, ..old(self)@ }),
            payments_view(r@) == settlement(final(self)@),
    {
        self.is_complete = true;
        self.settle()
    }

    /// Pays out the round at `idx`, whose moves are both in, and completes
    /// the cell if it was the final round. Returns the settlement in that
    /// case.
    fn resolve_round(&mut self, idx: usize) -> (r: Option<Vec<Payment>>)
        requires
            idx < old(self).rounds@.len(),
            both_moved(old(self)@.rounds[idx as int]),
        ensures
            ({
                let done = CellView {
                    rounds: old(self)@.rounds.update(
                        idx as int,
                        resolve(old(self)@.rounds[idx as int], old(self)@.stake_amount),
                    ),
                    ..old(self)@
                };
                if old(self).current_round >= old(self).total_rounds {
                    final(self)@ == (CellView { is_complete: true, ..done }) && r is Some
                        && payments_view(r->0@) == settlement(final(self)@)
                } else {
                    final(self)@ == (CellView { continuation_flags: 0, ..done }) && r is None
                }
            }),
    {
        let mut round = self.rounds[idx];
        let m1 = match round.player1_move {
            Some(m) => m,
            None => Move::Cooperate,
        };
        let m2 = match round.player2_move {
            Some(m) => m,
            None => Move::Cooperate,
        };
        let (first, second) = payoff(m1, m2, &self.stake_amount);
        round.player1_payout = first;
        round.player2_payout = second;
        round.is_finished = true;
        proof {
            lemma_amount_bytes(first);
            lemma_amount_bytes(second);
        }
        let ghost before = self@;
        self.rounds.set(idx, round);
        assert(self@.rounds =~= before.rounds.update(idx as int, resolve(before.rounds[idx as int], before.stake_amount)));
        if self.current_round >= self.total_rounds {
            Some(self.complete_cell())
        } else {
            self.continuation_flags = 0;
            None
        }
    }

    /// Records `caller`'s move in the open round; the second move of the
    /// round resolves it at once.
    pub fn submit_move(&mut self, caller: &Address, m: Move) -> (r: Result<MoveOutcome, GameError>)
        ensures
            match r {
                Err(e) => move_error(old(self)@, caller@) == Some(e) && final(self)@ == old(self)@,
                Ok(o) => {
                    &&& move_error(old(self)@, caller@) is None
                    &&& final(self)@ == after_move(old(self)@, caller@, m)
                    &&& match o {
                        MoveOutcome::Recorded => !final(self)@.rounds[old(self).current_round - 1].is_finished,
                        MoveOutcome::RoundFinished => final(self)@.rounds[old(self).current_round - 1].is_finished
                            && !final(self).is_complete,
                        MoveOutcome::CellCompleted(ps) => final(self).is_complete
                            && payments_view(ps@) == settlement(final(self)@),
                    }
                },
            },
    {
        if self.is_complete {
            return Err(GameError::CellIsComplete);
        }
        if self.player2.is_zero() {
            return Err(GameError::NeedPlayer2);
        }
        let first = caller.same(&self.player1);
        if !first && !caller.same(&self.player2) {
            return Err(GameError::NotInCell);
        }
        if self.current_round == 0 {
            return Err(GameError::NoRoundStarted);
        }
        let idx = (self.current_round - 1) as usize;
        if idx >= self.rounds.len() {
            return Err(GameError::RoundNotReady);
        }
        let mut round = self.rounds[idx];
        if round.is_finished {
            return Err(GameError::RoundAlreadyFinished);
        }
        if first {
            if round.player1_move.is_some() {
                return Err(GameError::AlreadyMoved);
            }
            round.player1_move = Some(m);
        } else {
            if round.player2_move.is_some() {
                return Err(GameError::AlreadyMoved);
            }
            round.player2_move = Some(m);
        }
        let ghost before = self@;
        self.rounds.set(idx, round);
        assert(self@.rounds =~= before.rounds.update(idx as int, place_move(before.rounds[idx as int], first, m)));
        let ghost placed = place_move(before.rounds[idx as int], first, m);
        if round.player1_move.is_some() && round.player2_move.is_some() {
            assert(self@.rounds.update(idx as int, resolve(placed, before.stake_amount))
                =~= before.rounds.update(idx as int, resolve(placed, before.stake_amount)));
            match self.resolve_round(idx) {
                Some(ps) => Ok(MoveOutcome::CellCompleted(ps)),
                None => Ok(MoveOutcome::RoundFinished),
            }
        } else {
            Ok(MoveOutcome::Recorded)
        }
    }

    /// Records `caller`'s wish to continue or stop. Once both have decided,
    /// the vote resolves within the same call.
    pub fn submit_continuation_decision(&mut self, caller: &Address, wants_continue: bool) -> (r:
        Result<VoteOutcome, GameError>)
        ensures
            match r {
                Err(e) => vote_error(old(self)@, caller@) == Some(e) && final(self)@ == old(self)@,
                Ok(o) => {
                    &&& vote_error(old(self)@, caller@) is None
                    &&& final(self)@ == after_vote(old(self)@, caller@, wants_continue)
                    &&& match o {
                        VoteOutcome::Pending => !final(self).is_complete
                            && final(self).current_round == old(self).current_round,
                        VoteOutcome::NextRound => !final(self).is_complete
                            && final(self).current_round == old(self).current_round + 1,
                        VoteOutcome::CellCompleted(ps) => final(self).is_complete
                            && payments_view(ps@) == settlement(final(self)@),
                    }
                },
            },
    {
        if self.is_complete {
            return Err(GameError::CellIsComplete);
        }
        let first = caller.same(&self.player1);
        if !first && !caller.same(&self.player2) {
            return Err(GameError::NotInCell);
        }
        if self.current_round >= self.total_rounds {
            return Err(GameError::MaxRoundsReached);
        }
        if first {
            if wants_continue {
                self.continuation_flags = self.continuation_flags | 1;
            } else {
                self.continuation_flags = self.continuation_flags & !1u8;
            }
            self.continuation_flags = self.continuation_flags | 4;
        } else {
            if wants_continue {
                self.continuation_flags = self.continuation_flags | 2;
            } else {
                self.continuation_flags = self.continuation_flags & !2u8;
            }
            self.continuation_flags = self.continuation_flags | 8;
        }
        let f = self.continuation_flags;
        if f & 4 != 0 && f & 8 != 0 {
            if f & 1 != 0 && f & 2 != 0 && self.current_round < self.total_rounds {
                self.current_round = self.current_round + 1;
                let ghost before = self@;
                self.rounds.push(Round::new());
                assert(self@.rounds =~= before.rounds.push(empty_round()));
                self.continuation_flags = 0;
                Ok(VoteOutcome::NextRound)
            } else {
                self.continuation_flags = 0;
                Ok(VoteOutcome::CellCompleted(self.complete_cell()))
            }
        } else {
            Ok(VoteOutcome::Pending)
        }
    }
}

impl Cell {
    /// Whether this cell is one that the operations can produce.
    pub fn is_reachable(&self) -> (r: bool)
        ensures
            r == reachable(self@),
    {
        let n = self.rounds.len();
        if n > 255 || n != self.current_round as usize {
            return false;
        }
        if self.current_round > self.total_rounds || self.total_rounds > 10 {
            return false;
        }
        let empty_seat = self.player2.is_zero();
        if empty_seat && (self.current_round != 0 || self.continuation_flags & 8 != 0) {
            return false;
        }
        if !empty_seat && self.current_round < 1 {
            return false;
        }
        if self.is_complete && empty_seat {
            return false;
        }
        let zero = Amount::zero();
        let mut i: usize = 0;
        while i < n
            invariant
                i <= n,
                n == self.rounds@.len(),
                zero.bytes@ == zero_amount(),
                forall|j: int| 0 <= j < i ==> round_encodable(#[trigger] self@.rounds[j]),
            decreases n - i,
        {
            let r = &self.rounds[i];
            if !r.is_finished && (!r.player1_payout.same(&zero) || !r.player2_payout.same(&zero)) {
                assert(!round_encodable(self@.rounds[i as int]));
                return false;
            }
            i = i + 1;
        }
        true
    }
}

/// A wrapped total stays below 2^256.
pub proof fn lemma_payout_total_bound(rs: Seq<RoundView>, first: bool)
    ensures
        payout_total(rs, first) < modulus(),
{
    lemma_pow_positive(256, 32);
    if rs.len() > 0 {
        lemma_mod_bound(
            (payout_total(rs.drop_last(), first) + (if !rs.last().is_finished {
                0
            } else if first {
                be_value(rs.last().player1_payout)
            } else {
                be_value(rs.last().player2_payout)
            })) as int,
            modulus() as int,
        );
    }
}

// ---------------------------------------------------------------------------
// Laws of the state machine

/// Whether a cell is one that the operations can produce: it survives its
/// record, has one round per opened round and no more than its target of at
/// most 10, has opened none and holds no decision of a second participant
/// while waiting for one, has opened the first once joined, and was
/// completed only with two participants.
pub open spec fn reachable(c: CellView) -> bool {
    &&& cell_encodable(c)
    &&& c.rounds.len() == c.current_round
    &&& c.current_round <= c.total_rounds <= 10
    &&& c.player2 == zero_address() ==> c.current_round == 0 && c.continuation_flags & 8 == 0
    &&& c.player2 != zero_address() ==> c.current_round >= 1
    &&& c.is_complete ==> c.player2 != zero_address()
}

/// What a round keeps from one state to a later one: a move once made, and
/// a finished flag once set with its payouts.
pub open spec fn round_kept(r: RoundView, later: RoundView) -> bool {
    &&& r.player1_move is Some ==> later.player1_move == r.player1_move
    &&& r.player2_move is Some ==> later.player2_move == r.player2_move
    &&& r.is_finished ==> later.is_finished && later.player1_payout == r.player1_payout
        && later.player2_payout == r.player2_payout
}

/// Whether `later` follows `c` as the game goes forward: a complete cell
/// stays as it is, the current round and the number of rounds never go
/// down, and every round keeps what it had.
pub open spec fn progresses(c: CellView, later: CellView) -> bool {
    &&& c.is_complete ==> later == c
    &&& later.current_round >= c.current_round
    &&& later.rounds.len() >= c.rounds.len()
    &&& forall|i: int| 0 <= i < c.rounds.len() ==> round_kept(#[trigger] c.rounds[i], later.rounds[i])
}

/// A cell's own state is a progression of itself.
pub proof fn lemma_progresses_refl(c: CellView)
    ensures
        progresses(c, c),
{
}

/// An accepted move keeps every move and payout already made, and leaves
/// the round count where it was.
pub proof fn lemma_move_progresses(c: CellView, caller: Seq<u8>, m: Move)
    requires
        move_error(c, caller) is None,
    ensures
        progresses(c, after_move(c, caller, m)),
{
}

/// An accepted vote keeps every round, opens at most one more, and once
/// both have decided leaves the vote flags at zero.
pub proof fn lemma_vote_progresses(c: CellView, caller: Seq<u8>, wants: bool)
    requires
        vote_error(c, caller) is None,
    ensures
        progresses(c, after_vote(c, caller, wants)),
        both_decided(vote_flags(c.continuation_flags, caller == c.player1, wants)) ==> after_vote(
            c,
            caller,
            wants,
        ).continuation_flags == 0,
{
}

/// Joining a reachable cell opens its first round.
pub proof fn lemma_join_progresses(c: CellView, joiner: Seq<u8>)
    requires
        reachable(c),
        c.player2 == zero_address(),
    ensures
        progresses(c, after_join(c, joiner)),
{
}

/// A move keeps a cell reachable.
pub proof fn lemma_move_reachable(c: CellView, caller: Seq<u8>, m: Move)
    requires
        reachable(c),
        move_error(c, caller) is None,
    ensures
        reachable(after_move(c, caller, m)),
{
    let c2 = after_move(c, caller, m);
    let idx = c.current_round - 1;
    let r = place_move(c.rounds[idx], caller == c.player1, m);
    let (x1, x2) = payoff_values(r.player1_move->0, r.player2_move->0, be_value(c.stake_amount));
    lemma_be_bytes(x1, 32);
    lemma_be_bytes(x2, 32);
    assert forall|i: int| 0 <= i < c2.rounds.len() implies round_encodable(#[trigger] c2.rounds[i]) by {
        assert(round_encodable(c.rounds[i]));
    }
}

/// A vote keeps a cell reachable.
pub proof fn lemma_vote_reachable(c: CellView, caller: Seq<u8>, wants: bool)
    requires
        reachable(c),
        vote_error(c, caller) is None,
        caller != zero_address(),
    ensures
        reachable(after_vote(c, caller, wants)),
{
    let c2 = after_vote(c, caller, wants);
    let f = c.continuation_flags;
    assert(vote_flags(f, true, wants) & 8 == f & 8) by (bit_vector)
        requires
            vote_flags(f, true, wants) == ((if wants {
                f | 1
            } else {
                f & !1u8
            }) | 4),
    ;
    assert(vote_flags(f, false, wants) & 8 != 0) by (bit_vector)
        requires
            vote_flags(f, false, wants) == ((if wants {
                f | 2
            } else {
                f & !2u8
            }) | 8),
    ;
    assert forall|i: int| 0 <= i < c2.rounds.len() implies round_encodable(#[trigger] c2.rounds[i]) by {
        if i < c.rounds.len() {
            assert(round_encodable(c.rounds[i]));
        }
    }
}

/// Joining keeps a cell reachable, given a real joiner.
pub proof fn lemma_join_reachable(c: CellView, joiner: Seq<u8>)
    requires
        reachable(c),
        c.player2 == zero_address(),
        c.total_rounds >= 1,
        joiner.len() == 20,
        joiner != zero_address(),
    ensures
        reachable(after_join(c, joiner)),
{
    let c2 = after_join(c, joiner);
    assert forall|i: int| 0 <= i < c2.rounds.len() implies round_encodable(#[trigger] c2.rounds[i]) by {
        if i < c.rounds.len() {
            assert(round_encodable(c.rounds[i]));
        }
    }
}

/// A fresh cell is reachable.
pub proof fn lemma_new_cell_reachable(creator: Seq<u8>, stake: Seq<u8>, total_rounds: u8)
    requires
        creator.len() == 20,
        stake.len() == 32,
        total_rounds <= 10,
    ensures
        reachable(new_cell(creator, stake, total_rounds)),
{
    lemma_zero_flags();
}

/// The cell behind a record too short for a header is reachable.
pub proof fn lemma_default_cell_reachable()
    ensures
        reachable(default_cell()),
{
    lemma_zero_flags();
}

/// Cleared vote flags hold no decision.
pub proof fn lemma_zero_flags()
    ensures
        0u8 & 8 == 0,
{
    assert(0u8 & 8u8 == 0u8) by (bit_vector);
}

/// The payouts that resolving a round writes are those of the payoff rule
/// on the stake, and mutual cooperation pays back exactly the stake. The
/// moves stay and the round is finished.
pub proof fn lemma_resolve_payouts(r: RoundView, stake: Seq<u8>)
    requires
        both_moved(r),
        stake.len() == 32,
    ensures
        ({
            let (x1, x2) = payoff_values(r.player1_move->0, r.player2_move->0, be_value(stake));
            let done = resolve(r, stake);
            &&& be_value(done.player1_payout) == x1
            &&& be_value(done.player2_payout) == x2
            &&& done.player1_payout.len() == 32
            &&& done.player2_payout.len() == 32
            &&& done.player1_move == r.player1_move
            &&& done.player2_move == r.player2_move
            &&& done.is_finished
        }),
        r.player1_move == Some(Move::Cooperate) && r.player2_move == Some(Move::Cooperate) ==> resolve(
            r,
            stake,
        ).player1_payout == stake && resolve(r, stake).player2_payout == stake,
{
    let s = be_value(stake);
    let (x1, x2) = payoff_values(r.player1_move->0, r.player2_move->0, s);
    lemma_be_value_bound(stake);
    lemma_pow_positive(256, 32);
    lemma_mod_bound((s + s / 2) as int, modulus() as int);
    lemma_amount_bytes_value(x1);
    lemma_amount_bytes_value(x2);
    if r.player1_move == Some(Move::Cooperate) && r.player2_move == Some(Move::Cooperate) {
        lemma_be_value_injective(amount_bytes(s), stake);
    }
}

/// The second move of the final round completes the cell at once, with no
/// vote, keeping its round count and current round.
pub proof fn lemma_final_round_completes(c: CellView, caller: Seq<u8>, m: Move)
    requires
        move_error(c, caller) is None,
        both_moved(place_move(c.rounds[c.current_round - 1], caller == c.player1, m)),
        c.current_round >= c.total_rounds,
    ensures
        after_move(c, caller, m).is_complete,
        after_move(c, caller, m).current_round == c.current_round,
        after_move(c, caller, m).rounds.len() == c.rounds.len(),
        after_move(c, caller, m).rounds[c.current_round - 1].is_finished,
{
}

/// A vote while the other participant has not decided leaves the cell open,
/// on the same round with the same rounds, holding the voter's decision.
pub proof fn lemma_first_vote_keeps_cell_open(c: CellView, caller: Seq<u8>, wants: bool)
    requires
        vote_error(c, caller) is None,
        decision(c.continuation_flags, !(caller == c.player1)) is None,
    ensures
        !after_vote(c, caller, wants).is_complete,
        after_vote(c, caller, wants).current_round == c.current_round,
        after_vote(c, caller, wants).rounds == c.rounds,
        decision(after_vote(c, caller, wants).continuation_flags, caller == c.player1) == Some(wants),
{
    lemma_vote_records_decision(c.continuation_flags, caller == c.player1, wants);
}

/// Once a vote resolves, continue or stop, its flags are all clear.
pub proof fn lemma_vote_resolution_clears_flags(c: CellView, caller: Seq<u8>, wants: bool)
    requires
        vote_error(c, caller) is None,
        decision(c.continuation_flags, !(caller == c.player1)) is Some,
    ensures
        after_vote(c, caller, wants).continuation_flags == 0,
        decision(0, true) is None && decision(0, false) is None,
{
    lemma_vote_records_decision(c.continuation_flags, caller == c.player1, wants);
    assert(0u8 & 4u8 == 0u8 && 0u8 & 8u8 == 0u8) by (bit_vector);
}

} // verus!
