use prisoners_dilemma::{payoff, Amount, Move};

fn amt(n: u64) -> Amount {
    let mut bytes = [0u8; 32];
    bytes[24..].copy_from_slice(&n.to_be_bytes());
    Amount { bytes }
}

#[test]
fn mutual_cooperation_returns_the_stake() {
    let (a, b) = payoff(Move::Cooperate, Move::Cooperate, &amt(100));
    assert_eq!(a, amt(100));
    assert_eq!(b, amt(100));
}

#[test]
fn mutual_defection_pays_half() {
    let (a, b) = payoff(Move::Defect, Move::Defect, &amt(100));
    assert_eq!(a, amt(50));
    assert_eq!(b, amt(50));
}

#[test]
fn defector_takes_one_and_a_half_stakes() {
    let (a, b) = payoff(Move::Cooperate, Move::Defect, &amt(100));
    assert_eq!(a, amt(50));
    assert_eq!(b, amt(150));
    let (c, d) = payoff(Move::Defect, Move::Cooperate, &amt(100));
    assert_eq!(c, amt(150));
    assert_eq!(d, amt(50));
}

#[test]
fn odd_stake_halves_round_down() {
    let (a, b) = payoff(Move::Defect, Move::Cooperate, &amt(101));
    assert_eq!(a, amt(151));
    assert_eq!(b, amt(50));
    let (c, d) = payoff(Move::Defect, Move::Defect, &amt(1));
    assert_eq!(c, amt(0));
    assert_eq!(d, amt(0));
}

#[test]
fn largest_stake_wraps_the_defector_payout() {
    let max = Amount { bytes: [0xff; 32] };
    let (a, b) = payoff(Move::Defect, Move::Cooperate, &max);
    // 2^256 - 1 + (2^255 - 1) wraps to 2^255 - 2.
    let mut expected = [0xff; 32];
    expected[0] = 0x7f;
    expected[31] = 0xfe;
    assert_eq!(a, Amount { bytes: expected });
    let mut half = [0xff; 32];
    half[0] = 0x7f;
    assert_eq!(b, Amount { bytes: half });
}

#[test]
fn amount_zero_and_equality() {
    assert!(amt(0).is_zero());
    assert!(!amt(1).is_zero());
    assert!(Amount::zero().is_zero());
    let mut high = [0u8; 32];
    high[0] = 1;
    assert!(!Amount { bytes: high }.is_zero());
    assert!(amt(258).same(&amt(258)));
    assert!(!amt(258).same(&amt(259)));
    let mut b = [0u8; 32];
    b[30] = 1;
    b[31] = 2;
    assert_eq!(amt(258), Amount { bytes: b });
}
