use chess_engine::{Engine, Move, PieceType, Side};

fn has_move(moves: &[Move], from: u32, to: u32, promote: Option<PieceType>) -> bool {
    moves
        .iter()
        .any(|m| m.from == from && m.to == to && m.promote == promote)
}

#[test]
fn initial_position_single_pushes() {
    let mut engine = Engine::default();
    engine.set_initial_position();
    let moves = engine.board.generate_pawn_moves(Side::White);
    let singles: Vec<&Move> = moves.iter().filter(|m| m.to == m.from + 8).collect();
    assert_eq!(singles.len(), 8);
    for file in 0..8u32 {
        assert!(has_move(&moves, 8 + file, 16 + file, None));
    }
}

#[test]
fn initial_position_has_sixteen_white_pawn_moves() {
    let mut engine = Engine::default();
    engine.set_initial_position();
    let moves = engine.generate_moves(Side::White);
    assert_eq!(moves.len(), 16);
    for m in &moves {
        assert_eq!(m.promote, None);
        // 8 single pushes and 8 double pushes, nothing else.
        assert!(m.to == m.from + 8 || m.to == m.from + 16);
    }
    for file in 0..8u32 {
        assert!(has_move(&moves, 8 + file, 16 + file, None));
        assert!(has_move(&moves, 8 + file, 24 + file, None));
    }
}

#[test]
fn initial_position_black_pawn_moves() {
    let mut engine = Engine::default();
    engine.set_initial_position();
    let moves = engine.generate_moves(Side::Black);
    assert_eq!(moves.len(), 16);
    for file in 0..8u32 {
        assert!(has_move(&moves, 48 + file, 40 + file, None));
        assert!(has_move(&moves, 48 + file, 32 + file, None));
    }
}

#[test]
fn double_push_blocked_by_piece_on_push_through_square() {
    let mut engine = Engine::default();
    // White pawn on a2; a knight of either side on a3; a4 stays empty.
    engine.set_square(8, Side::White, Some(PieceType::Pawn));
    engine.set_square(16, Side::Black, Some(PieceType::Knight));
    let moves = engine.board.generate_pawn_moves(Side::White);
    assert!(!has_move(&moves, 8, 24, None));
    // The single push is blocked too, and a3 holds no capture target
    // for an a-pawn, so no quiet move of the a-pawn exists at all.
    assert!(!has_move(&moves, 8, 16, None));
}

#[test]
fn double_push_blocked_even_when_destination_empty() {
    let mut engine = Engine::default();
    // White pawn on b2; a white bishop on b3; b4 empty.
    engine.set_square(9, Side::White, Some(PieceType::Pawn));
    engine.set_square(17, Side::White, Some(PieceType::Bishop));
    let moves = engine.board.generate_pawn_moves(Side::White);
    assert!(!has_move(&moves, 9, 25, None));
}

#[test]
fn push_to_back_rank_promotes_to_queen() {
    let mut engine = Engine::default();
    // White pawn on a7 pushes to a8 and promotes.
    engine.set_square(48, Side::White, Some(PieceType::Pawn));
    let moves = engine.board.generate_pawn_moves(Side::White);
    assert!(has_move(&moves, 48, 56, Some(PieceType::Queen)));
    assert!(!has_move(&moves, 48, 56, None));
}

#[test]
fn push_below_back_rank_does_not_promote() {
    let mut engine = Engine::default();
    // An otherwise identical pawn one rank lower does not promote.
    engine.set_square(40, Side::White, Some(PieceType::Pawn));
    let moves = engine.board.generate_pawn_moves(Side::White);
    assert!(has_move(&moves, 40, 48, None));
    assert!(!has_move(&moves, 40, 48, Some(PieceType::Queen)));
}

#[test]
fn black_pawn_promotes_on_rank_one() {
    let mut engine = Engine::default();
    // Black pawn on b2 pushes to b1 and promotes.
    engine.set_square(9, Side::Black, Some(PieceType::Pawn));
    let moves = engine.board.generate_pawn_moves(Side::Black);
    assert!(has_move(&moves, 9, 1, Some(PieceType::Queen)));
}

#[test]
fn capture_reconstructs_source_square() {
    let mut engine = Engine::default();
    // White pawn on d5, black pawn on e6: d5xe6 must be generated.
    engine.set_square(35, Side::White, Some(PieceType::Pawn));
    engine.set_square(44, Side::Black, Some(PieceType::Pawn));
    let moves = engine.board.generate_pawn_moves(Side::White);
    assert!(has_move(&moves, 35, 44, None));
}

#[test]
fn no_capture_without_an_opposing_target() {
    let mut engine = Engine::default();
    // A lone white pawn on d5: its only move is the push to d6.
    engine.set_square(35, Side::White, Some(PieceType::Pawn));
    let moves = engine.board.generate_pawn_moves(Side::White);
    assert_eq!(moves.len(), 1);
    assert!(has_move(&moves, 35, 43, None));
}

#[test]
fn capture_works_in_both_diagonal_directions() {
    let mut engine = Engine::default();
    // White pawn on d5; black pawns on c6 and e6; d6 blocked by black.
    engine.set_square(35, Side::White, Some(PieceType::Pawn));
    engine.set_square(42, Side::Black, Some(PieceType::Pawn));
    engine.set_square(43, Side::Black, Some(PieceType::Pawn));
    engine.set_square(44, Side::Black, Some(PieceType::Pawn));
    let moves = engine.board.generate_pawn_moves(Side::White);
    assert_eq!(moves.len(), 2);
    assert!(has_move(&moves, 35, 42, None));
    assert!(has_move(&moves, 35, 44, None));
}

#[test]
fn knight_on_d4_has_eight_destinations() {
    let mut engine = Engine::default();
    engine.set_square(27, Side::White, Some(PieceType::Knight));
    let moves = engine.board.generate_knight_moves(Side::White);
    assert_eq!(moves.len(), 8);
    for to in [10u32, 12, 17, 21, 33, 37, 42, 44] {
        assert!(has_move(&moves, 27, to, None));
    }
}

#[test]
fn knight_on_a1_is_clipped_to_two_destinations() {
    let mut engine = Engine::default();
    engine.set_square(0, Side::White, Some(PieceType::Knight));
    let moves = engine.board.generate_knight_moves(Side::White);
    assert_eq!(moves.len(), 2);
    assert!(has_move(&moves, 0, 10, None)); // c2
    assert!(has_move(&moves, 0, 17, None)); // b3
}

#[test]
fn knight_on_h1_is_clipped_and_does_not_wrap() {
    let mut engine = Engine::default();
    engine.set_square(7, Side::White, Some(PieceType::Knight));
    let moves = engine.board.generate_knight_moves(Side::White);
    assert_eq!(moves.len(), 2);
    assert!(has_move(&moves, 7, 13, None)); // f2
    assert!(has_move(&moves, 7, 22, None)); // g3
}

#[test]
fn knight_moves_exclude_occupied_squares() {
    let mut engine = Engine::default();
    engine.set_square(27, Side::White, Some(PieceType::Knight));
    // Block two destinations, one per side: neither is generated, since
    // knight generation keeps only empty squares.
    engine.set_square(10, Side::White, Some(PieceType::Pawn));
    engine.set_square(44, Side::Black, Some(PieceType::Pawn));
    let moves = engine.board.generate_knight_moves(Side::White);
    assert!(!has_move(&moves, 27, 10, None));
    assert!(!has_move(&moves, 27, 44, None));
}
