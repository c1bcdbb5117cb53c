use chess_engine::bitboard::{bb_shift, FILE_A, FILE_H, RANK_4};
use chess_engine::{Bitboard, BitboardIterator, BitboardOps, CheckIndex, Direction};

#[test]
fn get_ls1b_keeps_lowest_bit() {
    let bitboard: Bitboard = 0x000000FF00FF0000;
    assert_eq!(bitboard.get_ls1b(), 0x0000000000010000);
}

#[test]
fn remove_ls1b_clears_lowest_bit() {
    let bitboard: Bitboard = 0x000000FF00FF0000;
    assert_eq!(bitboard.remove_ls1b(), 0x000000FF00FE0000);
}

#[test]
fn ls1b_on_empty_board_gives_zero() {
    let bitboard: Bitboard = 0;
    assert_eq!(bitboard.get_ls1b(), 0);
    assert_eq!(bitboard.remove_ls1b(), 0);
}

#[test]
fn ls1b_laws_on_samples() {
    let samples: [Bitboard; 6] = [
        1,
        0x8000000000000000,
        0x000000FF00FF0000,
        0x8100000000000081,
        u64::MAX,
        0x0000000100000000,
    ];
    for b in samples {
        let got = b.get_ls1b();
        let rest = b.remove_ls1b();
        // Exactly one bit, and that bit is in `b`.
        assert_eq!(got.count_ones(), 1);
        assert_eq!(b & got, got);
        // Extraction and removal partition the board.
        assert_eq!(rest | got, b);
        assert_eq!(rest & got, 0);
    }
}

#[test]
fn iteration_visits_set_bits_ascending() {
    let bitboard: Bitboard = 0x8100000000000081;
    let mut it = bitboard.iter();
    let mut seen: Vec<Bitboard> = Vec::new();
    while let Some(single) = it.next() {
        seen.push(single);
    }
    assert_eq!(seen, vec![1u64 << 0, 1u64 << 7, 1u64 << 56, 1u64 << 63]);
}

#[test]
fn iteration_of_empty_board_is_empty() {
    let bitboard: Bitboard = 0;
    let mut it = bitboard.iter();
    assert_eq!(it.next(), None);
    assert_eq!(it.next(), None);
}

#[test]
fn check_index_tests_membership() {
    let bitboard: Bitboard = RANK_4;
    assert!(bitboard.check_index(24));
    assert!(bitboard.check_index(31));
    assert!(!bitboard.check_index(23));
    assert!(!bitboard.check_index(32));
}

#[test]
fn west_shift_from_file_a_never_reaches_file_h() {
    // Every direction with a westward component, applied to file a.
    for d in [
        Direction::W,
        Direction::NW,
        Direction::SW,
        Direction::NNW,
        Direction::SSW,
        Direction::NWW,
        Direction::SWW,
    ] {
        let shifted = bb_shift(FILE_A, d);
        assert_eq!(shifted & FILE_H, 0);
    }
}

#[test]
fn east_shift_from_file_h_never_reaches_file_a() {
    for d in [
        Direction::E,
        Direction::NE,
        Direction::SE,
        Direction::NNE,
        Direction::SSE,
        Direction::NEE,
        Direction::SEE,
    ] {
        let shifted = bb_shift(FILE_H, d);
        assert_eq!(shifted & FILE_A, 0);
    }
}

#[test]
fn two_file_leaps_do_not_wrap() {
    // A knight leap two files east from h1 leaves the board entirely.
    let h1: Bitboard = 1u64 << 7;
    assert_eq!(bb_shift(h1, Direction::NEE), 0);
    // And two files west from a1 likewise.
    let a1: Bitboard = 1u64 << 0;
    assert_eq!(bb_shift(a1, Direction::NWW), 0);
}

#[test]
fn north_shift_moves_up_one_rank() {
    let a2: Bitboard = 1u64 << 8;
    assert_eq!(bb_shift(a2, Direction::N), 1u64 << 16);
    let h8: Bitboard = 1u64 << 63;
    assert_eq!(bb_shift(h8, Direction::N), 0);
}
