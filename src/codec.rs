//! The byte layout in which a cell is stored between operations.
//!
//! A record is a 76-byte header (two 20-byte identities, the 32-byte
//! big-endian stake, then one byte each for the round target, the current
//! round, the completion flag and the number of rounds), one status byte per
//! round followed, for a finished round only, by its two 32-byte payouts, and
//! a trailing byte of vote flags.
use crate::address::{zero_address, Address};
use crate::amount::Amount;
use crate::game::{zero_amount, Cell, CellView, Move, Round, RoundView};
use vstd::prelude::*;

verus! {

/// Length of the fixed header of a record.
pub const HEADER_LEN: usize = 76;

/// The two status bits of an optional move: 0 for none, 1 for cooperate,
/// 2 for defect.
pub open spec fn move_code(m: Option<Move>) -> u8 {
    match m {
        None => 0,
        Some(Move::Cooperate) => 1,
        Some(Move::Defect) => 2,
    }
}

/// The status byte of a round: the first player's move code, the second
/// player's move code times 4, and 16 when the round is finished.
pub open spec fn round_status(r: RoundView) -> u8 {
    (move_code(r.player1_move) + 4 * move_code(r.player2_move) + if r.is_finished {
        16int
    } else {
        0int
    }) as u8
}

/// The bytes of one round: its status byte, then its payouts if finished.
pub open spec fn encode_round(r: RoundView) -> Seq<u8> {
    seq![round_status(r)] + if r.is_finished {
        r.player1_payout + r.player2_payout
    } else {
        Seq::empty()
    }
}

/// The bytes of a sequence of rounds, in order.
pub open spec fn encode_rounds(rs: Seq<RoundView>) -> Seq<u8>
    decreases rs.len(),
{
    if rs.len() == 0 {
        Seq::empty()
    } else {
        encode_round(rs[0]) + encode_rounds(rs.drop_first())
    }
}

/// The four one-byte header fields that follow the stake.
pub open spec fn header_tail(c: CellView) -> Seq<u8> {
    seq![
        c.total_rounds,
        c.current_round,
        if c.is_complete {
            1u8
        } else {
            0u8
        },
        (c.rounds.len() % 256) as u8,
    ]
}

/// The header of a cell's record.
pub open spec fn encode_header(c: CellView) -> Seq<u8> {
    c.player1 + c.player2 + c.stake_amount + header_tail(c)
}

/// The record of a cell.
pub open spec fn encode_cell(c: CellView) -> Seq<u8> {
    encode_header(c) + encode_rounds(c.rounds) + seq![c.continuation_flags]
}

/// The optional move of a two-bit code: 1 cooperates, 2 defects, 0 and 3 are
/// no move.
pub open spec fn decode_move(code: u8) -> Option<Move> {
    if code == 1 {
        Some(Move::Cooperate)
    } else if code == 2 {
        Some(Move::Defect)
    } else {
        None
    }
}

/// Whether the status byte marks the round finished.
pub open spec fn status_finished(b: u8) -> bool {
    (b / 16) % 2 == 1
}

/// Whether the round whose status byte is at `pos` carries both payouts in
/// full.
pub open spec fn has_payouts(data: Seq<u8>, pos: int) -> bool {
    status_finished(data[pos]) && pos + 65 <= data.len()
}

/// The round whose status byte is at `pos`. Payouts that are missing or cut
/// short read as zero.
pub open spec fn decode_round(data: Seq<u8>, pos: int) -> RoundView {
    let b = data[pos];
    RoundView {
        player1_move: decode_move(b % 4),
        player2_move: decode_move((b / 4) % 4),
        player1_payout: if has_payouts(data, pos) {
            data.subrange(pos + 1, pos + 33)
        } else {
            zero_amount()
        },
        player2_payout: if has_payouts(data, pos) {
            data.subrange(pos + 33, pos + 65)
        } else {
            zero_amount()
        },
        is_finished: status_finished(b),
    }
}

/// Where the round after the one at `pos` starts.
pub open spec fn round_end(data: Seq<u8>, pos: int) -> int {
    if has_payouts(data, pos) {
        pos + 65
    } else {
        pos + 1
    }
}

/// Up to `n` rounds read from `pos` on, stopping early at the end of the
/// data.
pub open spec fn decode_rounds(data: Seq<u8>, pos: int, n: nat) -> Seq<RoundView>
    decreases n,
{
    if n == 0 || pos < 0 || pos >= data.len() {
        Seq::empty()
    } else {
        seq![decode_round(data, pos)] + decode_rounds(data, round_end(data, pos), (n - 1) as nat)
    }
}

/// Where reading `n` rounds from `pos` on stops.
pub open spec fn rounds_end(data: Seq<u8>, pos: int, n: nat) -> int
    decreases n,
{
    if n == 0 || pos < 0 || pos >= data.len() {
        pos
    } else {
        rounds_end(data, round_end(data, pos), (n - 1) as nat)
    }
}

/// The cell that a record too short to hold a header stands for: no
/// participants, no stake, no rounds.
pub open spec fn default_cell() -> CellView {
    CellView {
        player1: zero_address(),
        player2: zero_address(),
        stake_amount: zero_amount(),
        total_rounds: 0,
        current_round: 0,
        is_complete: false,
        rounds: Seq::empty(),
        continuation_flags: 0,
    }
}

/// The cell that a record stands for.
pub open spec fn decode_cell(data: Seq<u8>) -> CellView {
    if data.len() < 76 {
        default_cell()
    } else {
        let end = rounds_end(data, 76, data[75] as nat);
        CellView {
            player1: data.subrange(0, 20),
            player2: data.subrange(20, 40),
            stake_amount: data.subrange(40, 72),
            total_rounds: data[72],
            current_round: data[73],
            is_complete: data[74] != 0,
            rounds: decode_rounds(data, 76, data[75] as nat),
            continuation_flags: if end < data.len() {
                data[end]
            } else {
                0
            },
        }
    }
}

/// Whether a round survives a trip through its bytes: amounts of 32 bytes,
/// and zero payouts while unfinished.
pub open spec fn round_encodable(r: RoundView) -> bool {
    &&& r.player1_payout.len() == 32
    &&& r.player2_payout.len() == 32
    &&& !r.is_finished ==> r.player1_payout == zero_amount() && r.player2_payout == zero_amount()
}

/// Whether a cell survives a trip through its record: identities of 20
/// bytes, a stake of 32, at most 255 rounds, each of them encodable.
pub open spec fn cell_encodable(c: CellView) -> bool {
    &&& c.player1.len() == 20
    &&& c.player2.len() == 20
    &&& c.stake_amount.len() == 32
    &&& c.rounds.len() <= 255
    &&& forall|i: int| 0 <= i < c.rounds.len() ==> round_encodable(#[trigger] c.rounds[i])
}

/// Appending a round appends its bytes.
pub proof fn lemma_encode_rounds_push(rs: Seq<RoundView>, r: RoundView)
    ensures
        encode_rounds(rs.push(r)) == encode_rounds(rs) + encode_round(r),
    decreases rs.len(),
{
    if rs.len() == 0 {
        assert(rs.push(r).drop_first() =~= Seq::<RoundView>::empty());
        assert(rs.push(r)[0] == r);
        assert(encode_rounds(Seq::<RoundView>::empty()) =~= Seq::<u8>::empty());
        assert(encode_rounds(rs.push(r)) =~= encode_round(r));
    } else {
        lemma_encode_rounds_push(rs.drop_first(), r);
        assert(rs.push(r).drop_first() =~= rs.drop_first().push(r));
        assert(encode_rounds(rs.push(r)) =~= encode_rounds(rs) + encode_round(r));
    }
}

/// The status byte of a round gives back its moves and its finished flag.
pub proof fn lemma_status_decodes(r: RoundView)
    ensures
        decode_move(round_status(r) % 4) == r.player1_move,
        decode_move((round_status(r) / 4) % 4) == r.player2_move,
        status_finished(round_status(r)) == r.is_finished,
{
}

/// A round's bytes, wherever they stand, read back as that round.
pub proof fn lemma_decode_round(p: Seq<u8>, r: RoundView, t: Seq<u8>)
    requires
        round_encodable(r),
    ensures
        decode_round(p + encode_round(r) + t, p.len() as int) == r,
        round_end(p + encode_round(r) + t, p.len() as int) == p.len() + encode_round(r).len(),
{
    let data = p + encode_round(r) + t;
    let pos = p.len() as int;
    lemma_status_decodes(r);
    assert(data[pos] == round_status(r));
    if r.is_finished {
        assert(data.subrange(pos + 1, pos + 33) =~= r.player1_payout);
        assert(data.subrange(pos + 33, pos + 65) =~= r.player2_payout);
    }
}

/// The bytes of a sequence of rounds, wherever they stand, read back as
/// those rounds, and reading stops right after them.
pub proof fn lemma_decode_rounds(p: Seq<u8>, rs: Seq<RoundView>, t: Seq<u8>)
    requires
        forall|i: int| 0 <= i < rs.len() ==> round_encodable(#[trigger] rs[i]),
    ensures
        decode_rounds(p + encode_rounds(rs) + t, p.len() as int, rs.len()) == rs,
        rounds_end(p + encode_rounds(rs) + t, p.len() as int, rs.len()) == p.len()
            + encode_rounds(rs).len(),
    decreases rs.len(),
{
    let data = p + encode_rounds(rs) + t;
    if rs.len() == 0 {
        assert(decode_rounds(data, p.len() as int, 0) =~= rs);
    } else {
        let r = rs[0];
        let rest = rs.drop_first();
        let after = p + encode_round(r);
        assert(round_encodable(rs[0]));
        assert forall|i: int| 0 <= i < rest.len() implies round_encodable(#[trigger] rest[i]) by {
            assert(rest[i] == rs[i + 1]);
        }
        assert(data =~= p + encode_round(r) + (encode_rounds(rest) + t));
        lemma_decode_round(p, r, encode_rounds(rest) + t);
        assert(data =~= after + encode_rounds(rest) + t);
        lemma_decode_rounds(after, rest, t);
        assert(p.len() < data.len());
        assert(rs =~= seq![r] + rest);
    }
}

/// Round trip: an encodable cell reads back from its record unchanged.
pub proof fn lemma_round_trip(c: CellView)
    requires
        cell_encodable(c),
    ensures
        decode_cell(encode_cell(c)) == c,
{
    let data = encode_cell(c);
    let h = encode_header(c);
    assert(h.len() == 76);
    lemma_decode_rounds(h, c.rounds, seq![c.continuation_flags]);
    assert(data[75] == c.rounds.len());
    assert(data.subrange(0, 20) =~= c.player1);
    assert(data.subrange(20, 40) =~= c.player2);
    assert(data.subrange(40, 72) =~= c.stake_amount);
    assert(data[72] == c.total_rounds);
    assert(data[73] == c.current_round);
    assert(data[74] == (if c.is_complete {
        1u8
    } else {
        0u8
    }));
    let end = rounds_end(data, 76, data[75] as nat);
    assert(end == 76 + encode_rounds(c.rounds).len());
    assert(data[end] == c.continuation_flags);
}

/// Appends the bytes of an array.
fn extend_bytes<const N: usize>(data: &mut Vec<u8>, b: &[u8; N])
    ensures
        final(data)@ == old(data)@ + b@,
{
    let mut i: usize = 0;
    while i < N
        invariant
            i <= N,
            b@.len() == N,
            data@ =~= old(data)@ + b@.take(i as int),
        decreases N - i,
    {
        data.push(b[i]);
        i = i + 1;
    }
    assert(b@.take(N as int) =~= b@);
}

/// Copies `N` bytes from `pos` on into an array.
fn read_bytes<const N: usize>(data: &[u8], pos: usize) -> (r: [u8; N])
    requires
        pos + N <= data.len(),
    ensures
        r@ == data@.subrange(pos as int, pos + N),
{
    let mut r = [0u8; N];
    let mut i: usize = 0;
    while i < N
        invariant
            i <= N,
            pos + N <= data.len(),
            r@.len() == N,
            forall|j: int| 0 <= j < i ==> r@[j] == data@[pos + j],
        decreases N - i,
    {
        r[i] = data[pos + i];
        i = i + 1;
    }
    assert(r@ =~= data@.subrange(pos as int, pos + N));
    r
}

/// The status byte of a round.
fn status_byte(r: &Round) -> (b: u8)
    ensures
        b == round_status(r@),
{
    let m1: u8 = match r.player1_move {
        None => 0,
        Some(Move::Cooperate) => 1,
        Some(Move::Defect) => 2,
    };
    let m2: u8 = match r.player2_move {
        None => 0,
        Some(Move::Cooperate) => 1,
        Some(Move::Defect) => 2,
    };
    let f: u8 = if r.is_finished {
        16
    } else {
        0
    };
    m1 + 4 * m2 + f
}

/// The record of a cell.
pub fn serialize_cell(cell: &Cell) -> (data: Vec<u8>)
    ensures
        data@ == encode_cell(cell@),
{
    let ghost c = cell@;
    let mut data: Vec<u8> = Vec::with_capacity(128);
    extend_bytes(&mut data, &cell.player1.bytes);
    extend_bytes(&mut data, &cell.player2.bytes);
    extend_bytes(&mut data, &cell.stake_amount.bytes);
    data.push(cell.total_rounds);
    data.push(cell.current_round);
    data.push(
        if cell.is_complete {
            1
        } else {
            0
        },
    );
    data.push((cell.rounds.len() % 256) as u8);
    assert(data@ =~= encode_header(c));
    let mut i: usize = 0;
    while i < cell.rounds.len()
        invariant
            i <= cell.rounds@.len(),
            c == cell@,
            data@ == encode_header(c) + encode_rounds(c.rounds.take(i as int)),
        decreases cell.rounds@.len() - i,
    {
        let round = &cell.rounds[i];
        proof {
            assert(c.rounds.take(i + 1) =~= c.rounds.take(i as int).push(round@));
            lemma_encode_rounds_push(c.rounds.take(i as int), round@);
        }
        data.push(status_byte(round));
        if round.is_finished {
            extend_bytes(&mut data, &round.player1_payout.bytes);
            extend_bytes(&mut data, &round.player2_payout.bytes);
        }
        assert(data@ =~= encode_header(c) + encode_rounds(c.rounds.take(i + 1)));
        i = i + 1;
    }
    assert(c.rounds.take(i as int) =~= c.rounds);
    data.push(cell.continuation_flags);
    data
}

/// The cell that a record stands for: the empty default cell where the
/// record is shorter than its header, and as many rounds as the data holds.
pub fn deserialize_cell(data: &[u8]) -> (cell: Cell)
    ensures
        cell@ == decode_cell(data@),
{
    let ghost d = data@;
    if data.len() < HEADER_LEN {
        let cell = Cell {
            player1: Address::zero(),
            player2: Address::zero(),
            stake_amount: Amount::zero(),
            total_rounds: 0,
            current_round: 0,
            is_complete: false,
            rounds: Vec::new(),
            continuation_flags: 0,
        };
        assert(cell@.rounds =~= Seq::<RoundView>::empty());
        return cell;
    }
    let player1 = Address { bytes: read_bytes::<20>(data, 0) };
    let player2 = Address { bytes: read_bytes::<20>(data, 20) };
    let stake_amount = Amount { bytes: read_bytes::<32>(data, 40) };
    let total_rounds = data[72];
    let current_round = data[73];
    let is_complete = data[74] != 0;
    let rounds_count = data[75] as usize;
    let mut rounds: Vec<Round> = Vec::with_capacity(rounds_count);
    let mut pos: usize = HEADER_LEN;
    let mut i: usize = 0;
    while i < rounds_count && pos < data.len()
        invariant
            d == data@,
            i <= rounds_count,
            rounds_count == d[75],
            76 <= pos <= d.len(),
            rounds@.map_values(|r: Round| r@) + decode_rounds(d, pos as int, (rounds_count - i) as nat)
                == decode_rounds(d, 76, rounds_count as nat),
            rounds_end(d, pos as int, (rounds_count - i) as nat) == rounds_end(
                d,
                76,
                rounds_count as nat,
            ),
        decreases rounds_count - i,
    {
        let ghost before = rounds@;
        let ghost at = pos as int;
        let b = data[pos];
        let player1_move = if b % 4 == 1 {
            Some(Move::Cooperate)
        } else if b % 4 == 2 {
            Some(Move::Defect)
        } else {
            None
        };
        let player2_move = if (b / 4) % 4 == 1 {
            Some(Move::Cooperate)
        } else if (b / 4) % 4 == 2 {
            Some(Move::Defect)
        } else {
            None
        };
        let is_finished = (b / 16) % 2 == 1;
        let round = if is_finished && data.len() - pos >= 65 {
            let first = Amount { bytes: read_bytes::<32>(data, pos + 1) };
            let second = Amount { bytes: read_bytes::<32>(data, pos + 33) };
            Round {
                player1_move,
                player2_move,
                player1_payout: first,
                player2_payout: second,
                is_finished,
            }
        } else {
            Round {
                player1_move,
                player2_move,
                player1_payout: Amount::zero(),
                player2_payout: Amount::zero(),
                is_finished,
            }
        };
        assert(round@ == decode_round(d, pos as int));
        pos = if is_finished && data.len() - pos >= 65 {
            pos + 65
        } else {
            pos + 1
        };
        rounds.push(round);
        assert(rounds@.map_values(|r: Round| r@) =~= before.map_values(|r: Round| r@).push(round@));
        assert(rounds@.map_values(|r: Round| r@) + decode_rounds(d, pos as int, (rounds_count - (i + 1)) as nat)
            =~= before.map_values(|r: Round| r@) + decode_rounds(d, at, (rounds_count - i) as nat)) by {
            assert(decode_rounds(d, at, (rounds_count - i) as nat) =~= seq![round@]
                + decode_rounds(d, pos as int, (rounds_count - (i + 1)) as nat));
        };
        i = i + 1;
    }
    let continuation_flags = if pos < data.len() {
        data[pos]
    } else {
        0
    };
    let cell = Cell {
        player1,
        player2,
        stake_amount,
        total_rounds,
        current_round,
        is_complete,
        rounds,
        continuation_flags,
    };
    assert(cell@.rounds =~= decode_rounds(d, 76, rounds_count as nat));
    cell
}

} // verus!
