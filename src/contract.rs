//! The game host: the cells by id, the cell that each participant is bound
//! to, and the cell of each pair of participants.
//!
//! Each operation loads a cell from its record, applies one step of the
//! state machine and writes the record back. The caller's identity and the
//! value sent come in as arguments; payments owed come back as values.
use crate::address::{hash_players, pair_key, zero_address, Address};
use crate::amount::Amount;
use crate::codec::{
    decode_cell, default_cell, deserialize_cell, encode_cell, lemma_round_trip, serialize_cell,
};
use crate::game::{move_of_byte, Cell, CellView, Move};
use crate::machine::{
    after_join, after_move, after_vote, join_error, lemma_default_cell_reachable,
    lemma_join_progresses, lemma_join_reachable, lemma_move_progresses, lemma_move_reachable,
    lemma_new_cell_reachable, lemma_progresses_refl, lemma_vote_progresses, lemma_vote_reachable,
    move_error, new_cell, payments_view, progresses, reachable, rounds_from_entropy, settlement,
    vote_error, GameError, MoveOutcome, VoteOutcome,
};
use crate::store::KeyedStore;
use std::collections::HashMap;
use vstd::prelude::*;

verus! {

broadcast use vstd::std_specs::hash::group_hash_axioms;

/// The whole state of the game host.
#[derive(Debug)]
pub struct PrisonersDilemma {
    /// The id of the last cell created; ids start at 1.
    pub cell_counter: u64,
    /// The record of each cell, by id.
    pub cells: HashMap<u64, Vec<u8>>,
    /// The open cell of each participant, 0 for none.
    pub player_to_cell: KeyedStore<20>,
    /// The cell of each pair of participants, by pairing key.
    pub players_to_cell: KeyedStore<32>,
    /// The least stake with which a cell can be created.
    pub min_stake: Amount,
    /// Who set the host up; the empty identity until then.
    pub owner: Address,
}

impl PrisonersDilemma {
    /// The record of cell `id`, empty if none was written.
    pub open spec fn record(&self, id: u64) -> Seq<u8> {
        if self.cells@.contains_key(id) {
            self.cells@[id]@
        } else {
            Seq::empty()
        }
    }

    /// The cell that the record of `id` stands for.
    pub open spec fn cell_at(&self, id: u64) -> CellView {
        decode_cell(self.record(id))
    }

    /// The cell that `who` is bound to, 0 for none.
    pub open spec fn bound(&self, who: Seq<u8>) -> u64 {
        self.player_to_cell.get_spec(who)
    }

    /// The cell recorded under a pairing key, 0 for none.
    pub open spec fn paired(&self, key: Seq<u8>) -> u64 {
        self.players_to_cell.get_spec(key)
    }

    /// Every record stands for a cell that the operations can produce, and
    /// no id but those handed out so far, 1 to `cell_counter`, holds one.
    pub open spec fn wf(&self) -> bool {
        &&& forall|id: u64| reachable(#[trigger] self.cell_at(id))
        &&& forall|id: u64| (id == 0 || id > self.cell_counter) ==> #[trigger] self.record(id).len() == 0
    }

    /// Whether `cell_id` names no created cell: it was never handed out, or
    /// its record holds no round target, which every created cell has.
    pub open spec fn no_such_cell(&self, cell_id: u64) -> bool {
        cell_id == 0 || cell_id > self.cell_counter || self.cell_at(cell_id).total_rounds == 0
    }

    /// Whether a record may be loaded as that of a created cell.
    pub open spec fn valid_record(data: Seq<u8>) -> bool {
        reachable(decode_cell(data)) && decode_cell(data).total_rounds >= 1
    }

    /// Whether every record but that of `id` is as in `other`.
    pub open spec fn same_records_except(&self, other: &Self, id: u64) -> bool {
        forall|j: u64| j != id ==> #[trigger] self.record(j) == other.record(j)
    }

    /// Whether every binding but that of `who` is as in `other`.
    pub open spec fn same_bindings_except(&self, other: &Self, who: Seq<u8>) -> bool {
        forall|w: Seq<u8>| w != who ==> #[trigger] self.bound(w) == other.bound(w)
    }

    /// Whether every cell of `self` follows on from the one in `before`.
    pub open spec fn all_progress_from(&self, before: &Self) -> bool {
        forall|id: u64| progresses(#[trigger] before.cell_at(id), self.cell_at(id))
    }

    /// An empty host, not yet set up.
    pub fn new() -> (r: Self)
        ensures
            r.wf(),
            r.cell_counter == 0,
            r.owner@ == zero_address(),
            r.min_stake.value() == 0,
            forall|id: u64| #[trigger] r.record(id) == Seq::<u8>::empty(),
            forall|w: Seq<u8>| #[trigger] r.bound(w) == 0,
            forall|k: Seq<u8>| #[trigger] r.paired(k) == 0,
    {
        let r = PrisonersDilemma {
            cell_counter: 0,
            cells: HashMap::new(),
            player_to_cell: KeyedStore::new(),
            players_to_cell: KeyedStore::new(),
            min_stake: Amount::zero(),
            owner: Address::zero(),
        };
        proof {
            lemma_default_cell_reachable();
        }
        r
    }

    /// Sets the host up once: the least stake and the owner. The cell
    /// counter is left as it is, so that cells created before keep their
    /// ids. Does nothing once an owner is set.
    pub fn initialize(&mut self, sender: Address, min_stake: Amount)
        requires
            old(self).wf(),
        ensures
            final(self).wf(),
            old(self).owner@ == zero_address() ==> final(self).min_stake == min_stake
                && final(self).owner == sender,
            old(self).owner@ != zero_address() ==> final(self).min_stake == old(self).min_stake
                && final(self).owner == old(self).owner,
            final(self).cell_counter == old(self).cell_counter,
            final(self).cells == old(self).cells,
            final(self).player_to_cell == old(self).player_to_cell,
            final(self).players_to_cell == old(self).players_to_cell,
    {
        if self.owner.is_zero() {
            self.min_stake = min_stake;
            self.owner = sender;
        }
        proof {
            lemma_wf_same_cells(*old(self), *self);
        }
    }

    /// A host with the given settings and no cell or binding loaded yet.
    pub fn with_settings(cell_counter: u64, min_stake: Amount, owner: Address) -> (r: Self)
        ensures
            r.wf(),
            r.cell_counter == cell_counter,
            r.min_stake == min_stake,
            r.owner == owner,
            forall|id: u64| #[trigger] r.record(id) == Seq::<u8>::empty(),
            forall|w: Seq<u8>| #[trigger] r.bound(w) == 0,
            forall|k: Seq<u8>| #[trigger] r.paired(k) == 0,
    {
        let r = PrisonersDilemma {
            cell_counter,
            cells: HashMap::new(),
            player_to_cell: KeyedStore::new(),
            players_to_cell: KeyedStore::new(),
            min_stake,
            owner,
        };
        proof {
            lemma_default_cell_reachable();
        }
        r
    }

    /// Takes in the stored record of created cell `cell_id`, provided it
    /// stands for a cell that the operations can produce with a round
    /// target. Returns whether it was taken; the host is unchanged if not.
    pub fn load_record(&mut self, cell_id: u64, data: Vec<u8>) -> (r: bool)
        requires
            old(self).wf(),
        ensures
            final(self).wf(),
            r == (1 <= cell_id <= old(self).cell_counter && Self::valid_record(data@)),
            r ==> final(self).record(cell_id) == data@ && final(self).same_records_except(
                old(self),
                cell_id,
            ) && final(self).cell_counter == old(self).cell_counter
                && final(self).player_to_cell == old(self).player_to_cell
                && final(self).players_to_cell == old(self).players_to_cell
                && final(self).min_stake == old(self).min_stake && final(self).owner == old(
                self,
            ).owner,
            !r ==> *final(self) == *old(self),
    {
        if cell_id == 0 || cell_id > self.cell_counter {
            return false;
        }
        let cell = deserialize_cell(data.as_slice());
        if !cell.is_reachable() || cell.total_rounds < 1 {
            return false;
        }
        let ghost d = data@;
        self.cells.insert(cell_id, data);
        proof {
            assert(self.record(cell_id) == d);
            lemma_wf_one_record(*old(self), *self, cell_id);
        }
        true
    }

    /// The cell that the record of `cell_id` stands for.
    fn load_cell(&self, cell_id: u64) -> (r: Cell)
        ensures
            r@ == self.cell_at(cell_id),
    {
        match self.cells.get(&cell_id) {
            Some(data) => deserialize_cell(data.as_slice()),
            None => {
                let empty: Vec<u8> = Vec::new();
                deserialize_cell(empty.as_slice())
            },
        }
    }

    /// Writes the record of a cell under `cell_id`.
    fn store_cell(&mut self, cell_id: u64, cell: &Cell)
        requires
            reachable(cell@),
        ensures
            final(self).record(cell_id) == encode_cell(cell@),
            final(self).cell_at(cell_id) == cell@,
            final(self).same_records_except(old(self), cell_id),
            final(self).cell_counter == old(self).cell_counter,
            final(self).player_to_cell == old(self).player_to_cell,
            final(self).players_to_cell == old(self).players_to_cell,
            final(self).min_stake == old(self).min_stake,
            final(self).owner == old(self).owner,
    {
        let data = serialize_cell(cell);
        self.cells.insert(cell_id, data);
        proof {
            lemma_round_trip(cell@);
        }
    }

    /// Frees both participants of a settled cell to play again.
    fn clear_bindings(&mut self, cell: &Cell)
        ensures
            final(self).bound(cell.player1@) == 0,
            final(self).bound(cell.player2@) == 0,
            forall|w: Seq<u8>|
                w != cell.player1@ && w != cell.player2@ ==> #[trigger] final(self).bound(w)
                    == old(self).bound(w),
            final(self).cells == old(self).cells,
            final(self).cell_counter == old(self).cell_counter,
            final(self).players_to_cell == old(self).players_to_cell,
            final(self).min_stake == old(self).min_stake,
            final(self).owner == old(self).owner,
    {
        self.player_to_cell.set(cell.player1.bytes, 0);
        self.player_to_cell.set(cell.player2.bytes, 0);
    }

    /// Opens a new cell for `sender` with the value sent as stake and a
    /// round target taken from `entropy`, and binds `sender` to it. Ids are
    /// counted in `u64`, so the counter must not be exhausted.
    pub fn create_cell(&mut self, sender: Address, stake: Amount, entropy: u64) -> (r: Result<
        u64,
        GameError,
    >)
        requires
            old(self).wf(),
            old(self).cell_counter < u64::MAX,
            sender@ != zero_address(),
        ensures
            final(self).wf(),
            old(self).bound(sender@) != 0 ==> r is Err,
            match r {
                Err(e) => {
                    &&& e == (if stake.value() < old(self).min_stake.value() {
                        GameError::StakeTooLow
                    } else {
                        GameError::AlreadyInCell
                    })
                    &&& (stake.value() < old(self).min_stake.value() || old(self).bound(sender@) != 0)
                    &&& *final(self) == *old(self)
                },
                Ok(id) => {
                    &&& stake.value() >= old(self).min_stake.value()
                    &&& old(self).bound(sender@) == 0
                    &&& id == old(self).cell_counter + 1
                    &&& old(self).record(id).len() == 0
                    &&& final(self).cell_counter == id
                    &&& final(self).cell_at(id) == new_cell(
                        sender@,
                        stake.bytes@,
                        rounds_from_entropy(entropy),
                    )
                    &&& final(self).same_records_except(old(self), id)
                    &&& final(self).bound(sender@) == id
                    &&& final(self).same_bindings_except(old(self), sender@)
                    &&& final(self).players_to_cell == old(self).players_to_cell
                    &&& final(self).min_stake == old(self).min_stake
                    &&& final(self).owner == old(self).owner
                },
            },
    {
        if stake.lt(&self.min_stake) {
            return Err(GameError::StakeTooLow);
        }
        if self.player_to_cell.get(&sender.bytes) != 0 {
            return Err(GameError::AlreadyInCell);
        }
        let cell_id = self.cell_counter + 1;
        self.cell_counter = cell_id;
        let cell = Cell::new(sender, stake, entropy);
        proof {
            lemma_new_cell_reachable(sender@, stake.bytes@, rounds_from_entropy(entropy));
        }
        self.store_cell(cell_id, &cell);
        let ghost mid = *self;
        self.player_to_cell.set(sender.bytes, cell_id);
        proof {
            assert forall|j: u64| j != cell_id implies #[trigger] self.record(j) == old(self).record(j) by {
                assert(mid.record(j) == old(self).record(j));
            }
            assert forall|id: u64| reachable(#[trigger] self.cell_at(id)) by {
                if id != cell_id {
                    assert(self.record(id) == old(self).record(id));
                    assert(reachable(old(self).cell_at(id)));
                }
            }
            assert forall|id: u64| (id == 0 || id > self.cell_counter) implies #[trigger] self.record(id).len() == 0 by {
                assert(self.record(id) == old(self).record(id));
            }
            assert(old(self).record(cell_id).len() == 0);
        }
        Ok(cell_id)
    }

    /// Takes `sender` into cell `cell_id` as second participant, provided
    /// the value sent equals the cell's stake, opens its first round and
    /// records the pair. The empty identity marks a free seat and cannot
    /// join.
    pub fn join_cell(&mut self, cell_id: u64, sender: Address, stake: Amount) -> (r: Result<
        (),
        GameError,
    >)
        requires
            old(self).wf(),
            sender@ != zero_address(),
        ensures
            final(self).wf(),
            final(self).all_progress_from(old(self)),
            old(self).bound(sender@) != 0 ==> r == Err::<(), GameError>(GameError::AlreadyInCell),
            old(self).bound(sender@) == 0 && old(self).no_such_cell(cell_id) ==> r == Err::<
                (),
                GameError,
            >(GameError::NoSuchCell),
            match r {
                Err(e) => {
                    &&& old(self).bound(sender@) != 0 || old(self).no_such_cell(cell_id) || join_error(
                        old(self).cell_at(cell_id),
                        stake.bytes@,
                    ) == Some(e)
                    &&& *final(self) == *old(self)
                },
                Ok(_) => {
                    &&& old(self).bound(sender@) == 0
                    &&& !old(self).no_such_cell(cell_id)
                    &&& join_error(old(self).cell_at(cell_id), stake.bytes@) is None
                    &&& final(self).cell_at(cell_id) == after_join(old(self).cell_at(cell_id), sender@)
                    &&& final(self).same_records_except(old(self), cell_id)
                    &&& final(self).bound(sender@) == cell_id
                    &&& final(self).same_bindings_except(old(self), sender@)
                    &&& final(self).paired(pair_key(old(self).cell_at(cell_id).player1, sender@))
                        == cell_id
                    &&& forall|k: Seq<u8>|
                        k != pair_key(old(self).cell_at(cell_id).player1, sender@)
                            ==> #[trigger] final(self).paired(k) == old(self).paired(k)
                    &&& final(self).cell_counter == old(self).cell_counter
                    &&& final(self).min_stake == old(self).min_stake
                    &&& final(self).owner == old(self).owner
                },
            },
    {
        if self.player_to_cell.get(&sender.bytes) != 0 {
            return Err(GameError::AlreadyInCell);
        }
        if cell_id == 0 || cell_id > self.cell_counter {
            return Err(GameError::NoSuchCell);
        }
        let mut cell = self.load_cell(cell_id);
        if cell.total_rounds == 0 {
            return Err(GameError::NoSuchCell);
        }
        match cell.check_join(&stake) {
            Some(e) => {
                return Err(e);
            },
            None => {},
        }
        proof {
            assert(reachable(old(self).cell_at(cell_id)));
            lemma_join_reachable(cell@, sender@);
            lemma_join_progresses(cell@, sender@);
        }
        cell.join(sender);
        self.store_cell(cell_id, &cell);
        let ghost mid = *self;
        self.player_to_cell.set(sender.bytes, cell_id);
        let key = hash_players(&cell.player1, &sender);
        self.players_to_cell.set(key, cell_id);
        proof {
            assert forall|id: u64| reachable(#[trigger] self.cell_at(id)) && progresses(old(self).cell_at(id), self.cell_at(id)) by {
                if id != cell_id {
                    assert(mid.record(id) == old(self).record(id));
                    assert(reachable(old(self).cell_at(id)));
                    lemma_progresses_refl(old(self).cell_at(id));
                }
            }
            assert forall|j: u64| j != cell_id implies #[trigger] self.record(j) == old(self).record(j) by {
                assert(mid.record(j) == old(self).record(j));
            }
            lemma_wf_one_record(*old(self), *self, cell_id);
        }
        Ok(())
    }

    /// Records `sender`'s move, given as a byte (zero cooperates, any other
    /// byte defects), in the open round of cell `cell_id`. When the move
    /// completes the cell, both participants are unbound.
    pub fn submit_move(&mut self, cell_id: u64, sender: Address, move_choice: u8) -> (r: Result<
        MoveOutcome,
        GameError,
    >)
        requires
            old(self).wf(),
        ensures
            final(self).wf(),
            final(self).all_progress_from(old(self)),
            match r {
                Err(e) => {
                    &&& move_error(old(self).cell_at(cell_id), sender@) == Some(e)
                    &&& *final(self) == *old(self)
                },
                Ok(o) => {
                    let c = old(self).cell_at(cell_id);
                    let c2 = after_move(c, sender@, move_of_byte(move_choice));
                    &&& move_error(c, sender@) is None
                    &&& final(self).cell_at(cell_id) == c2
                    &&& final(self).same_records_except(old(self), cell_id)
                    &&& final(self).cell_counter == old(self).cell_counter
                    &&& final(self).players_to_cell == old(self).players_to_cell
                    &&& final(self).min_stake == old(self).min_stake
                    &&& final(self).owner == old(self).owner
                    &&& match o {
                        MoveOutcome::CellCompleted(ps) => {
                            &&& c2.is_complete
                            &&& payments_view(ps@) == settlement(c2)
                            &&& final(self).bound(c.player1) == 0
                            &&& final(self).bound(c.player2) == 0
                            &&& forall|w: Seq<u8>|
                                w != c.player1 && w != c.player2 ==> #[trigger] final(self).bound(w)
                                    == old(self).bound(w)
                        },
                        _ => {
                            &&& !c2.is_complete
                            &&& final(self).player_to_cell == old(self).player_to_cell
                        },
                    }
                },
            },
    {
        let mut cell = self.load_cell(cell_id);
        let player_move = Move::from(move_choice);
        let r = cell.submit_move(&sender, player_move);
        match r {
            Err(e) => Err(e),
            Ok(o) => {
                proof {
                    assert(reachable(old(self).cell_at(cell_id)));
                    lemma_move_reachable(old(self).cell_at(cell_id), sender@, player_move);
                    lemma_move_progresses(old(self).cell_at(cell_id), sender@, player_move);
                }
                match &o {
                    MoveOutcome::CellCompleted(_) => {
                        self.clear_bindings(&cell);
                    },
                    _ => {},
                }
                let ghost mid = *self;
                proof {
                    assert forall|w: Seq<u8>| #[trigger] self.bound(w) == mid.bound(w) by {}
                }
                self.store_cell(cell_id, &cell);
                proof {
                    assert forall|id: u64| reachable(#[trigger] self.cell_at(id)) && progresses(old(self).cell_at(id), self.cell_at(id)) by {
                        if id != cell_id {
                            assert(self.record(id) == mid.record(id));
                            assert(mid.cells == old(self).cells);
                            assert(reachable(old(self).cell_at(id)));
                            lemma_progresses_refl(old(self).cell_at(id));
                        }
                    }
                    assert forall|w: Seq<u8>| #[trigger] self.bound(w) == mid.bound(w) by {
                        assert(self.player_to_cell == mid.player_to_cell);
                    }
                    assert forall|j: u64| j != cell_id implies #[trigger] self.record(j) == old(self).record(j) by {
                        assert(mid.cells == old(self).cells);
                        assert(mid.record(j) == old(self).record(j));
                    }
                    lemma_created_if_played(*old(self), cell_id);
                    lemma_wf_one_record(*old(self), *self, cell_id);
                }
                Ok(o)
            },
        }
    }

    /// Records `sender`'s wish to continue or stop cell `cell_id` after the
    /// current round. When the vote completes the cell, both participants
    /// are unbound. The empty identity marks a free seat and cannot vote.
    pub fn submit_continuation_decision(
        &mut self,
        cell_id: u64,
        sender: Address,
        wants_continue: bool,
    ) -> (r: Result<VoteOutcome, GameError>)
        requires
            old(self).wf(),
            sender@ != zero_address(),
        ensures
            final(self).wf(),
            final(self).all_progress_from(old(self)),
            match r {
                Err(e) => {
                    &&& vote_error(old(self).cell_at(cell_id), sender@) == Some(e)
                    &&& *final(self) == *old(self)
                },
                Ok(o) => {
                    let c = old(self).cell_at(cell_id);
                    let c2 = after_vote(c, sender@, wants_continue);
                    &&& vote_error(c, sender@) is None
                    &&& final(self).cell_at(cell_id) == c2
                    &&& final(self).same_records_except(old(self), cell_id)
                    &&& final(self).cell_counter == old(self).cell_counter
                    &&& final(self).players_to_cell == old(self).players_to_cell
                    &&& final(self).min_stake == old(self).min_stake
                    &&& final(self).owner == old(self).owner
                    &&& match o {
                        VoteOutcome::Pending => {
                            &&& !c2.is_complete
                            &&& c2.current_round == c.current_round
                            &&& final(self).player_to_cell == old(self).player_to_cell
                        },
                        VoteOutcome::NextRound => {
                            &&& !c2.is_complete
                            &&& c2.current_round == c.current_round + 1
                            &&& c2.continuation_flags == 0
                            &&& final(self).player_to_cell == old(self).player_to_cell
                        },
                        VoteOutcome::CellCompleted(ps) => {
                            &&& c2.is_complete
                            &&& c2.continuation_flags == 0
                            &&& payments_view(ps@) == settlement(c2)
                            &&& final(self).bound(c.player1) == 0
                            &&& final(self).bound(c.player2) == 0
                            &&& forall|w: Seq<u8>|
                                w != c.player1 && w != c.player2 ==> #[trigger] final(self).bound(w)
                                    == old(self).bound(w)
                        },
                    }
                },
            },
    {
        let mut cell = self.load_cell(cell_id);
        let r = cell.submit_continuation_decision(&sender, wants_continue);
        match r {
            Err(e) => Err(e),
            Ok(o) => {
                proof {
                    assert(reachable(old(self).cell_at(cell_id)));
                    lemma_vote_reachable(old(self).cell_at(cell_id), sender@, wants_continue);
                    lemma_vote_progresses(old(self).cell_at(cell_id), sender@, wants_continue);
                }
                match &o {
                    VoteOutcome::CellCompleted(_) => {
                        self.clear_bindings(&cell);
                    },
                    _ => {},
                }
                let ghost mid = *self;
                self.store_cell(cell_id, &cell);
                proof {
                    assert forall|id: u64| reachable(#[trigger] self.cell_at(id)) && progresses(old(self).cell_at(id), self.cell_at(id)) by {
                        if id != cell_id {
                            assert(self.record(id) == mid.record(id));
                            assert(mid.cells == old(self).cells);
                            assert(reachable(old(self).cell_at(id)));
                            lemma_progresses_refl(old(self).cell_at(id));
                        }
                    }
                    assert forall|w: Seq<u8>| #[trigger] self.bound(w) == mid.bound(w) by {
                        assert(self.player_to_cell == mid.player_to_cell);
                    }
                    assert forall|j: u64| j != cell_id implies #[trigger] self.record(j) == old(self).record(j) by {
                        assert(mid.cells == old(self).cells);
                        assert(mid.record(j) == old(self).record(j));
                    }
                    lemma_created_if_played(*old(self), cell_id);
                    lemma_wf_one_record(*old(self), *self, cell_id);
                }
                Ok(o)
            },
        }
    }

    /// The summary of cell `cell_id`: participants, stake, round target,
    /// current round and whether it is complete.
    pub fn get_cell(&self, cell_id: u64) -> (r: (Address, Address, Amount, u8, u8, bool))
        ensures
            ({
                let c = self.cell_at(cell_id);
                &&& r.0@ == c.player1
                &&& r.1@ == c.player2
                &&& r.2.bytes@ == c.stake_amount
                &&& r.3 == c.total_rounds
                &&& r.4 == c.current_round
                &&& r.5 == c.is_complete
            }),
    {
        let cell = self.load_cell(cell_id);
        (
            cell.player1,
            cell.player2,
            cell.stake_amount,
            cell.total_rounds,
            cell.current_round,
            cell.is_complete,
        )
    }

    /// The cell that `player` is bound to, 0 for none.
    pub fn get_player_cell(&self, player: &Address) -> (r: u64)
        ensures
            r == self.bound(player@),
    {
        self.player_to_cell.get(&player.bytes)
    }

    /// The cell of the pair {player1, player2}, whatever their order; 0 for
    /// none.
    pub fn get_players_cell(&self, player1: &Address, player2: &Address) -> (r: u64)
        ensures
            r == self.paired(pair_key(player1@, player2@)),
    {
        let key = hash_players(player1, player2);
        self.players_to_cell.get(&key)
    }

    /// The least stake with which a cell can be created.
    pub fn get_min_stake(&self) -> (r: Amount)
        ensures
            r == self.min_stake,
    {
        self.min_stake
    }

    /// Who set the host up.
    pub fn get_owner(&self) -> (r: Address)
        ensures
            r == self.owner,
    {
        self.owner
    }

    /// The id of the last cell created.
    pub fn get_cell_counter(&self) -> (r: u64)
        ensures
            r == self.cell_counter,
    {
        self.cell_counter
    }

    /// The state of the continuation vote of cell `cell_id`: whether the
    /// first participant has decided and wants to go on, then the same for
    /// the second.
    pub fn get_continuation_status(&self, cell_id: u64) -> (r: (bool, bool, bool, bool))
        ensures
            ({
                let f = self.cell_at(cell_id).continuation_flags;
                r == (f & 4 != 0, f & 1 != 0, f & 8 != 0, f & 2 != 0)
            }),
    {
        let cell = self.load_cell(cell_id);
        let f = cell.continuation_flags;
        (f & 4 != 0, f & 1 != 0, f & 8 != 0, f & 2 != 0)
    }

    /// The moves (0 cooperate, 1 defect) and payouts of round
    /// `round_number` (counted from 1) of cell `cell_id`; all zero where
    /// that round does not exist or is not finished.
    pub fn get_round_result(&self, cell_id: u64, round_number: u8) -> (r: (u8, u8, Amount, Amount))
        ensures
            ({
                let c = self.cell_at(cell_id);
                if 1 <= round_number <= c.rounds.len() && c.rounds[round_number - 1].is_finished {
                    let rd = c.rounds[round_number - 1];
                    &&& r.0 == move_code_or_cooperate(rd.player1_move)
                    &&& r.1 == move_code_or_cooperate(rd.player2_move)
                    &&& r.2.bytes@ == rd.player1_payout
                    &&& r.3.bytes@ == rd.player2_payout
                } else {
                    r.0 == 0 && r.1 == 0 && r.2.value() == 0 && r.3.value() == 0
                }
            }),
    {
        let cell = self.load_cell(cell_id);
        if round_number == 0 || (round_number - 1) as usize >= cell.rounds.len() {
            return (0, 0, Amount::zero(), Amount::zero());
        }
        let round = &cell.rounds[(round_number - 1) as usize];
        if !round.is_finished {
            return (0, 0, Amount::zero(), Amount::zero());
        }
        let first = match round.player1_move {
            Some(m) => m,
            None => Move::Cooperate,
        };
        let second = match round.player2_move {
            Some(m) => m,
            None => Move::Cooperate,
        };
        (first.to_u8(), second.to_u8(), round.player1_payout, round.player2_payout)
    }
}

/// The code of an optional move, an absent one counting as cooperation.
pub open spec fn move_code_or_cooperate(m: Option<Move>) -> u8 {
    match m {
        Some(mv) => mv.code(),
        None => 0,
    }
}

/// The entropy from which a new cell's round target is drawn: the block
/// number, the block timestamp and the last byte of the creator's identity,
/// added with wrap-around.
pub fn round_entropy(block_number: u64, timestamp: u64, creator: &Address) -> (r: u64)
    ensures
        r == ((block_number + timestamp) % 0x1_0000_0000_0000_0000 + creator@[19] as int)
            % 0x1_0000_0000_0000_0000,
{
    block_number.wrapping_add(timestamp).wrapping_add(creator.bytes[19] as u64)
}

/// A host whose records are those of a well-formed one, with the same
/// counter, is well-formed.
proof fn lemma_wf_same_cells(before: PrisonersDilemma, after: PrisonersDilemma)
    requires
        before.wf(),
        after.cells == before.cells,
        after.cell_counter == before.cell_counter,
    ensures
        after.wf(),
{
    assert forall|id: u64| #[trigger] after.record(id) == before.record(id) by {}
    assert forall|id: u64| reachable(#[trigger] after.cell_at(id)) by {
        assert(reachable(before.cell_at(id)));
    }
    assert forall|id: u64| (id == 0 || id > after.cell_counter) implies #[trigger] after.record(id).len() == 0 by {
        assert(before.record(id).len() == 0);
    }
}

/// Rewriting the record of one created cell with a cell that the
/// operations can produce, with a round target, keeps a host well-formed.
proof fn lemma_wf_one_record(before: PrisonersDilemma, after: PrisonersDilemma, cell_id: u64)
    requires
        before.wf(),
        after.cell_counter == before.cell_counter,
        after.same_records_except(&before, cell_id),
        1 <= cell_id <= before.cell_counter,
        reachable(after.cell_at(cell_id)),
    ensures
        after.wf(),
{
    assert forall|id: u64| reachable(#[trigger] after.cell_at(id)) by {
        if id != cell_id {
            assert(after.record(id) == before.record(id));
            assert(reachable(before.cell_at(id)));
        }
    }
    assert forall|id: u64| (id == 0 || id > after.cell_counter) implies #[trigger] after.record(id).len() == 0 by {
        assert(after.record(id) == before.record(id));
        assert(before.record(id).len() == 0);
    }
}

/// A cell that holds a participant other than the empty one, or has any
/// round, was created.
proof fn lemma_created_if_played(h: PrisonersDilemma, cell_id: u64)
    requires
        h.wf(),
        h.cell_at(cell_id).player2 != zero_address() || h.cell_at(cell_id).player1 != zero_address(),
    ensures
        1 <= cell_id <= h.cell_counter,
{
    if cell_id == 0 || cell_id > h.cell_counter {
        assert(h.record(cell_id).len() == 0);
        assert(h.cell_at(cell_id) == default_cell());
    }
}

} // verus!
