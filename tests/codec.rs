use prisoners_dilemma::{deserialize_cell, serialize_cell, Address, Amount, Cell, Move, Round};

fn amt(n: u64) -> Amount {
    let mut bytes = [0u8; 32];
    bytes[24..].copy_from_slice(&n.to_be_bytes());
    Amount { bytes }
}

fn addr(b: u8) -> Address {
    Address { bytes: [b; 20] }
}

fn sample_cell() -> Cell {
    Cell {
        player1: addr(1),
        player2: addr(2),
        stake_amount: amt(100),
        total_rounds: 3,
        current_round: 2,
        is_complete: false,
        rounds: vec![
            Round {
                player1_move: Some(Move::Defect),
                player2_move: Some(Move::Cooperate),
                player1_payout: amt(150),
                player2_payout: amt(50),
                is_finished: true,
            },
            Round {
                player1_move: None,
                player2_move: Some(Move::Defect),
                player1_payout: Amount::zero(),
                player2_payout: Amount::zero(),
                is_finished: false,
            },
        ],
        continuation_flags: 5,
    }
}

#[test]
fn round_trip_keeps_the_cell() {
    let cell = sample_cell();
    let data = serialize_cell(&cell);
    assert_eq!(deserialize_cell(&data), cell);
}

#[test]
fn record_layout_is_byte_exact() {
    let data = serialize_cell(&sample_cell());
    // header 76, finished round 1 + 64, open round 1, flags 1
    assert_eq!(data.len(), 76 + 65 + 1 + 1);
    assert_eq!(&data[0..20], &[1u8; 20]);
    assert_eq!(&data[20..40], &[2u8; 20]);
    assert_eq!(data[71], 100);
    assert!(data[40..71].iter().all(|b| *b == 0));
    assert_eq!(&data[72..76], &[3, 2, 0, 2]);
    // defect (2) for player 1, cooperate (1) for player 2, finished
    assert_eq!(data[76], 0x02 | 0x04 | 0x10);
    assert_eq!(data[76 + 32], 150);
    assert_eq!(data[76 + 64], 50);
    // no move for player 1, defect for player 2, not finished
    assert_eq!(data[141], 0x08);
    assert_eq!(data[142], 5);
}

#[test]
fn short_record_reads_as_default_cell() {
    let cell = deserialize_cell(&[7u8; 75]);
    assert!(cell.player1.is_zero());
    assert!(cell.player2.is_zero());
    assert!(cell.stake_amount.is_zero());
    assert_eq!(cell.total_rounds, 0);
    assert_eq!(cell.current_round, 0);
    assert!(!cell.is_complete);
    assert!(cell.rounds.is_empty());
    assert_eq!(cell.continuation_flags, 0);
    assert_eq!(deserialize_cell(&[]), cell);
}

#[test]
fn truncated_rounds_stop_early() {
    let mut data = serialize_cell(&sample_cell());
    // keep the header and the first round's status byte only
    data.truncate(77);
    let cell = deserialize_cell(&data);
    assert_eq!(cell.rounds.len(), 1);
    assert!(cell.rounds[0].is_finished);
    assert_eq!(cell.rounds[0].player1_move, Some(Move::Defect));
    assert!(cell.rounds[0].player1_payout.is_zero());
    assert!(cell.rounds[0].player2_payout.is_zero());
    assert_eq!(cell.continuation_flags, 0);
}

#[test]
fn complete_flag_and_odd_status_bits() {
    let mut data = serialize_cell(&sample_cell());
    data[74] = 9;
    // both move fields hold 3, which is no move
    data[141] = 0x0f;
    let cell = deserialize_cell(&data);
    assert!(cell.is_complete);
    assert_eq!(cell.rounds[1].player1_move, None);
    assert_eq!(cell.rounds[1].player2_move, None);
    assert_eq!(serialize_cell(&cell)[74], 1);
}

#[test]
fn any_nonzero_byte_is_defect() {
    assert_eq!(Move::from(0u8), Move::Cooperate);
    assert_eq!(Move::from(1u8), Move::Defect);
    assert_eq!(Move::from(255u8), Move::Defect);
    assert_eq!(Move::Defect.to_u8(), 1);
    assert_eq!(Move::Cooperate.to_u8(), 0);
}
