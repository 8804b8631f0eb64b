use prisoners_dilemma::{
    hash_players, round_entropy, Address, Amount, Cell, GameError, Move, MoveOutcome, Payment,
    PrisonersDilemma, Round, VoteOutcome,
};

fn addr(b: u8) -> Address {
    Address { bytes: [b; 20] }
}

fn amt(n: u64) -> Amount {
    let mut bytes = [0u8; 32];
    bytes[24..].copy_from_slice(&n.to_be_bytes());
    Amount { bytes }
}

const COOPERATE: u8 = 0;
const DEFECT: u8 = 1;

/// A host with a minimum stake of 10, owned by 9.
fn host() -> PrisonersDilemma {
    let mut pd = PrisonersDilemma::new();
    pd.initialize(addr(9), amt(10));
    pd
}

/// Cell 1 of participants 1 and 2 with stake 100 and a target of
/// `1 + entropy % 10` rounds, first round open.
fn started(entropy: u64) -> PrisonersDilemma {
    let mut pd = host();
    assert_eq!(pd.create_cell(addr(1), amt(100), entropy), Ok(1));
    assert_eq!(pd.join_cell(1, addr(2), amt(100)), Ok(()));
    pd
}

fn payments(o: MoveOutcome) -> Vec<Payment> {
    match o {
        MoveOutcome::CellCompleted(ps) => ps,
        other => panic!("expected completion, got {:?}", other),
    }
}

#[test]
fn initialize_is_one_time() {
    let mut pd = PrisonersDilemma::new();
    assert!(pd.get_owner().is_zero());
    pd.initialize(addr(9), amt(10));
    pd.initialize(addr(8), amt(99));
    assert_eq!(pd.get_owner(), addr(9));
    assert_eq!(pd.get_min_stake(), amt(10));
    assert_eq!(pd.get_cell_counter(), 0);
}

#[test]
fn create_derives_round_target_from_entropy() {
    let mut pd = host();
    assert_eq!(pd.create_cell(addr(1), amt(100), 2), Ok(1));
    assert_eq!(pd.create_cell(addr(3), amt(10), 19), Ok(2));
    let (first, second, stake, total, current, complete) = pd.get_cell(1);
    assert_eq!(first, addr(1));
    assert!(second.is_zero());
    assert_eq!(stake, amt(100));
    assert_eq!(total, 3);
    assert_eq!(current, 0);
    assert!(!complete);
    assert_eq!(pd.get_cell(2).3, 10);
    assert_eq!(pd.get_player_cell(&addr(1)), 1);
    assert_eq!(pd.get_player_cell(&addr(3)), 2);
    assert_eq!(pd.get_cell_counter(), 2);
}

#[test]
fn entropy_adds_block_time_and_last_identity_byte() {
    let mut a = addr(0);
    a.bytes[19] = 7;
    assert_eq!(round_entropy(10, 20, &a), 37);
    assert_eq!(round_entropy(u64::MAX, 1, &a), 7);
}

#[test]
fn stake_below_minimum_is_refused() {
    let mut pd = host();
    assert_eq!(pd.create_cell(addr(1), amt(9), 0), Err(GameError::StakeTooLow));
    assert_eq!(pd.get_cell_counter(), 0);
    assert_eq!(pd.get_player_cell(&addr(1)), 0);
}

#[test]
fn bound_identity_cannot_create_or_join_elsewhere() {
    let mut pd = host();
    assert_eq!(pd.create_cell(addr(1), amt(100), 0), Ok(1));
    assert_eq!(pd.create_cell(addr(1), amt(100), 0), Err(GameError::AlreadyInCell));
    assert_eq!(pd.create_cell(addr(3), amt(100), 0), Ok(2));
    assert_eq!(pd.join_cell(2, addr(1), amt(100)), Err(GameError::AlreadyInCell));
    // once cell 1 is settled, participant 1 is free again
    assert_eq!(pd.join_cell(1, addr(2), amt(100)), Ok(()));
    pd.submit_move(1, addr(1), COOPERATE).unwrap();
    pd.submit_move(1, addr(2), COOPERATE).unwrap();
    assert_eq!(pd.get_player_cell(&addr(1)), 0);
    assert_eq!(pd.join_cell(2, addr(1), amt(100)), Ok(()));
    assert_eq!(pd.get_player_cell(&addr(1)), 2);
}

#[test]
fn join_errors() {
    let mut pd = started(0);
    assert_eq!(pd.join_cell(1, addr(4), amt(100)), Err(GameError::CellFull));
    assert_eq!(pd.create_cell(addr(3), amt(100), 0), Ok(2));
    assert_eq!(pd.join_cell(2, addr(4), amt(99)), Err(GameError::WrongStake));
    assert_eq!(pd.join_cell(2, addr(4), amt(101)), Err(GameError::WrongStake));
    assert_eq!(pd.get_player_cell(&addr(4)), 0);
}

#[test]
fn join_opens_first_round_and_records_pair() {
    let pd = started(4);
    let (_, second, _, total, current, _) = pd.get_cell(1);
    assert_eq!(second, addr(2));
    assert_eq!(total, 5);
    assert_eq!(current, 1);
    assert_eq!(pd.get_player_cell(&addr(2)), 1);
    assert_eq!(pd.get_players_cell(&addr(1), &addr(2)), 1);
    assert_eq!(pd.get_players_cell(&addr(2), &addr(1)), 1);
    assert_eq!(pd.get_players_cell(&addr(1), &addr(3)), 0);
}

#[test]
fn pairing_key_is_the_digest_of_the_ordered_pair() {
    let a = addr(1);
    let b = addr(2);
    let mut data = Vec::new();
    data.extend_from_slice(&a.bytes);
    data.extend_from_slice(&b.bytes);
    let expected = alloy_primitives::keccak256(&data).0;
    assert_eq!(hash_players(&a, &b), expected);
    assert_eq!(hash_players(&b, &a), expected);
    assert_ne!(hash_players(&a, &a), expected);
}

#[test]
fn move_errors() {
    let mut pd = host();
    assert_eq!(pd.create_cell(addr(1), amt(100), 2), Ok(1));
    assert_eq!(pd.submit_move(1, addr(1), COOPERATE).unwrap_err(), GameError::NeedPlayer2);
    assert_eq!(pd.join_cell(1, addr(2), amt(100)), Ok(()));
    assert_eq!(pd.submit_move(1, addr(3), COOPERATE).unwrap_err(), GameError::NotInCell);
    assert!(matches!(pd.submit_move(1, addr(1), DEFECT), Ok(MoveOutcome::Recorded)));
    assert_eq!(pd.submit_move(1, addr(1), COOPERATE).unwrap_err(), GameError::AlreadyMoved);
    assert!(matches!(pd.submit_move(1, addr(2), DEFECT), Ok(MoveOutcome::RoundFinished)));
    assert_eq!(
        pd.submit_move(1, addr(2), COOPERATE).unwrap_err(),
        GameError::RoundAlreadyFinished
    );
    assert_eq!(pd.get_round_result(1, 1), (1, 1, amt(50), amt(50)));
}

#[test]
fn move_errors_on_odd_cells() {
    let mut cell = Cell {
        player1: addr(1),
        player2: addr(2),
        stake_amount: amt(100),
        total_rounds: 3,
        current_round: 0,
        is_complete: false,
        rounds: Vec::new(),
        continuation_flags: 0,
    };
    assert_eq!(
        cell.submit_move(&addr(1), Move::Cooperate).unwrap_err(),
        GameError::NoRoundStarted
    );
    cell.current_round = 2;
    cell.rounds.push(Round::new());
    assert_eq!(
        cell.submit_move(&addr(1), Move::Cooperate).unwrap_err(),
        GameError::RoundNotReady
    );
    cell.is_complete = true;
    assert_eq!(
        cell.submit_move(&addr(1), Move::Cooperate).unwrap_err(),
        GameError::CellIsComplete
    );
}

#[test]
fn two_cooperations_then_continue() {
    let mut pd = started(2);
    assert_eq!(pd.get_cell(1).3, 3);
    assert!(matches!(pd.submit_move(1, addr(1), COOPERATE), Ok(MoveOutcome::Recorded)));
    assert!(matches!(pd.submit_move(1, addr(2), COOPERATE), Ok(MoveOutcome::RoundFinished)));
    assert_eq!(pd.get_round_result(1, 1), (0, 0, amt(100), amt(100)));
    let (_, _, _, _, current, complete) = pd.get_cell(1);
    assert_eq!(current, 1);
    assert!(!complete);
    assert_eq!(pd.get_round_result(1, 2), (0, 0, amt(0), amt(0)));
    assert!(matches!(
        pd.submit_continuation_decision(1, addr(1), true),
        Ok(VoteOutcome::Pending)
    ));
    assert_eq!(pd.get_continuation_status(1), (true, true, false, false));
    assert!(matches!(
        pd.submit_continuation_decision(1, addr(2), true),
        Ok(VoteOutcome::NextRound)
    ));
    assert_eq!(pd.get_cell(1).4, 2);
    assert_eq!(pd.get_continuation_status(1), (false, false, false, false));
    assert_eq!(pd.get_round_result(1, 2), (0, 0, amt(0), amt(0)));
    assert!(matches!(pd.submit_move(1, addr(2), DEFECT), Ok(MoveOutcome::Recorded)));
}

#[test]
fn final_round_settles_without_a_vote() {
    let mut pd = started(1);
    assert_eq!(pd.get_cell(1).3, 2);
    pd.submit_move(1, addr(1), DEFECT).unwrap();
    pd.submit_move(1, addr(2), COOPERATE).unwrap();
    pd.submit_continuation_decision(1, addr(2), true).unwrap();
    pd.submit_continuation_decision(1, addr(1), true).unwrap();
    pd.submit_move(1, addr(2), DEFECT).unwrap();
    let ps = payments(pd.submit_move(1, addr(1), COOPERATE).unwrap());
    // round 1: 150 / 50; round 2: 50 / 150
    assert_eq!(
        ps,
        vec![
            Payment { to: addr(1), amount: amt(200) },
            Payment { to: addr(2), amount: amt(200) }
        ]
    );
    let (_, _, _, _, current, complete) = pd.get_cell(1);
    assert!(complete);
    assert_eq!(current, 2);
    assert_eq!(pd.get_player_cell(&addr(1)), 0);
    assert_eq!(pd.get_player_cell(&addr(2)), 0);
    assert_eq!(pd.get_round_result(1, 2), (0, 1, amt(50), amt(150)));
    assert_eq!(pd.submit_move(1, addr(1), COOPERATE).unwrap_err(), GameError::CellIsComplete);
    assert_eq!(
        pd.submit_continuation_decision(1, addr(1), true).unwrap_err(),
        GameError::CellIsComplete
    );
}

#[test]
fn single_round_cell_refuses_votes() {
    let mut pd = started(0);
    assert_eq!(pd.get_cell(1).3, 1);
    assert_eq!(
        pd.submit_continuation_decision(1, addr(1), true).unwrap_err(),
        GameError::MaxRoundsReached
    );
    pd.submit_move(1, addr(1), DEFECT).unwrap();
    let ps = payments(pd.submit_move(1, addr(2), DEFECT).unwrap());
    assert_eq!(
        ps,
        vec![
            Payment { to: addr(1), amount: amt(50) },
            Payment { to: addr(2), amount: amt(50) }
        ]
    );
}

#[test]
fn zero_totals_are_not_paid() {
    let mut pd = PrisonersDilemma::new();
    pd.initialize(addr(9), amt(0));
    assert_eq!(pd.create_cell(addr(1), amt(1), 0), Ok(1));
    assert_eq!(pd.join_cell(1, addr(2), amt(1)), Ok(()));
    pd.submit_move(1, addr(1), COOPERATE).unwrap();
    let ps = payments(pd.submit_move(1, addr(2), DEFECT).unwrap());
    // stake 1: the cooperator gets 1 / 2 = 0, the defector 1 + 0 = 1
    assert_eq!(ps, vec![Payment { to: addr(2), amount: amt(1) }]);
}

#[test]
fn one_stop_vote_leaves_cell_open() {
    let mut pd = started(5);
    pd.submit_move(1, addr(1), COOPERATE).unwrap();
    pd.submit_move(1, addr(2), COOPERATE).unwrap();
    assert!(matches!(
        pd.submit_continuation_decision(1, addr(2), false),
        Ok(VoteOutcome::Pending)
    ));
    assert!(!pd.get_cell(1).5);
    assert_eq!(pd.get_continuation_status(1), (false, false, true, false));
    assert_eq!(pd.get_player_cell(&addr(1)), 1);
    // a caller may overwrite their own vote before the other decides
    assert!(matches!(
        pd.submit_continuation_decision(1, addr(2), true),
        Ok(VoteOutcome::Pending)
    ));
    assert_eq!(pd.get_continuation_status(1), (false, false, true, true));
}

#[test]
fn stop_vote_settles_and_resets_flags() {
    let mut pd = started(5);
    pd.submit_move(1, addr(1), COOPERATE).unwrap();
    pd.submit_move(1, addr(2), COOPERATE).unwrap();
    pd.submit_continuation_decision(1, addr(1), true).unwrap();
    let o = pd.submit_continuation_decision(1, addr(2), false).unwrap();
    match o {
        VoteOutcome::CellCompleted(ps) => assert_eq!(
            ps,
            vec![
                Payment { to: addr(1), amount: amt(100) },
                Payment { to: addr(2), amount: amt(100) }
            ]
        ),
        other => panic!("expected completion, got {:?}", other),
    }
    assert!(pd.get_cell(1).5);
    assert_eq!(pd.get_continuation_status(1), (false, false, false, false));
    assert_eq!(pd.get_player_cell(&addr(1)), 0);
    assert_eq!(pd.get_player_cell(&addr(2)), 0);
}

#[test]
fn vote_by_outsider_is_refused() {
    let mut pd = started(5);
    assert_eq!(
        pd.submit_continuation_decision(1, addr(3), true).unwrap_err(),
        GameError::NotInCell
    );
}

#[test]
fn rounds_and_moves_never_go_back() {
    let mut pd = started(9);
    let mut last_round = pd.get_cell(1).4;
    for r in 1..=4u8 {
        pd.submit_move(1, addr(1), r % 2).unwrap();
        let first = pd.get_round_result(1, r);
        pd.submit_move(1, addr(2), COOPERATE).unwrap();
        let done = pd.get_round_result(1, r);
        assert_eq!(first, (0, 0, amt(0), amt(0)));
        assert_eq!(done.0, r % 2);
        pd.submit_continuation_decision(1, addr(1), true).unwrap();
        pd.submit_continuation_decision(1, addr(2), true).unwrap();
        let current = pd.get_cell(1).4;
        assert!(current > last_round);
        last_round = current;
        assert_eq!(pd.get_round_result(1, r), done);
    }
}

#[test]
fn join_of_uncreated_cell_is_refused() {
    let mut pd = PrisonersDilemma::new();
    pd.initialize(addr(9), amt(0));
    assert_eq!(pd.join_cell(1, addr(2), amt(0)), Err(GameError::NoSuchCell));
    assert_eq!(pd.join_cell(0, addr(2), amt(0)), Err(GameError::NoSuchCell));
    assert_eq!(pd.get_player_cell(&addr(2)), 0);
    assert_eq!(pd.create_cell(addr(1), amt(0), 0), Ok(1));
    assert_eq!(pd.join_cell(2, addr(2), amt(0)), Err(GameError::NoSuchCell));
    assert_eq!(pd.join_cell(1, addr(2), amt(0)), Ok(()));
    // a bound identity is refused before the id is looked at
    assert_eq!(pd.join_cell(7, addr(2), amt(0)), Err(GameError::AlreadyInCell));
}

#[test]
fn ids_are_fresh_after_a_cell_completes() {
    let mut pd = started(0);
    pd.submit_move(1, addr(1), COOPERATE).unwrap();
    pd.submit_move(1, addr(2), COOPERATE).unwrap();
    assert!(pd.get_cell(1).5);
    assert_eq!(pd.create_cell(addr(1), amt(100), 0), Ok(2));
    assert_eq!(pd.get_player_cell(&addr(1)), 2);
    assert!(pd.get_cell(1).5);
    assert_eq!(pd.get_cell(1).1, addr(2));
}

#[test]
fn records_are_loaded_only_when_valid() {
    let mut source = started(2);
    source.submit_move(1, addr(1), DEFECT).unwrap();
    let record = source.cells.get(&1).unwrap().clone();
    let mut host = PrisonersDilemma::with_settings(1, amt(10), addr(9));
    assert!(!host.load_record(2, record.clone()));
    assert!(!host.load_record(0, record.clone()));
    let mut broken = record.clone();
    broken[73] = 7; // current round beyond the rounds held
    assert!(!host.load_record(1, broken));
    assert!(!host.load_record(1, vec![1, 2, 3]));
    assert!(host.load_record(1, record));
    assert_eq!(host.get_cell(1), source.get_cell(1));
    assert_eq!(host.submit_move(1, addr(1), COOPERATE).unwrap_err(), GameError::AlreadyMoved);
    assert!(matches!(host.submit_move(1, addr(2), DEFECT), Ok(MoveOutcome::RoundFinished)));
}

#[test]
fn reachability_of_cells() {
    let fresh = Cell::new(addr(1), amt(100), 4);
    assert!(fresh.is_reachable());
    let mut joined = Cell::new(addr(1), amt(100), 4);
    joined.join(addr(2));
    assert!(joined.is_reachable());
    let mut beyond = Cell::new(addr(1), amt(100), 0);
    beyond.join(addr(2));
    beyond.current_round = 2;
    beyond.rounds.push(Round::new());
    assert!(!beyond.is_reachable());
    let mut paid_early = Cell::new(addr(1), amt(100), 4);
    paid_early.join(addr(2));
    paid_early.rounds[0].player1_payout = amt(1);
    assert!(!paid_early.is_reachable());
    let mut lone_complete = Cell::new(addr(1), amt(100), 4);
    lone_complete.is_complete = true;
    assert!(!lone_complete.is_reachable());
}
