use chess_engine::{Engine, InvalidMove, Move, PieceType, Side};

#[test]
fn side_flip_is_an_involution() {
    assert_eq!(Side::White.flip(), Side::Black);
    assert_eq!(Side::Black.flip(), Side::White);
    assert_eq!(Side::White.flip().flip(), Side::White);
}

#[test]
fn side_and_piece_indices_are_dense() {
    assert_eq!(Side::White.val(), 0);
    assert_eq!(Side::Black.val(), 1);
    assert_eq!(PieceType::Pawn.val(), 0);
    assert_eq!(PieceType::Knight.val(), 1);
    assert_eq!(PieceType::Bishop.val(), 2);
    assert_eq!(PieceType::Rook.val(), 3);
    assert_eq!(PieceType::Queen.val(), 4);
    assert_eq!(PieceType::King.val(), 5);
}

#[test]
fn engine_reports_name_and_author() {
    let engine = Engine::default();
    assert_eq!(engine.name(), "Chess Engine");
    assert_eq!(engine.author(), "Nathan Gardiner");
}

#[test]
fn piece_letters() {
    let engine = Engine::default();
    assert_eq!(engine.char_from_piece(PieceType::Pawn, Side::White), 'P');
    assert_eq!(engine.char_from_piece(PieceType::Knight, Side::Black), 'n');
    assert_eq!(engine.char_from_piece(PieceType::King, Side::White), 'K');
    assert_eq!(engine.char_from_piece(PieceType::Queen, Side::Black), 'q');
}

#[test]
fn sides_stay_disjoint_through_placements() {
    let mut engine = Engine::default();
    engine.set_square(10, Side::White, Some(PieceType::Rook));
    engine.set_square(10, Side::Black, Some(PieceType::Rook));
    engine.set_square(11, Side::Black, Some(PieceType::Queen));
    engine.set_square(11, Side::White, Some(PieceType::Pawn));
    engine.set_square(12, Side::White, Some(PieceType::King));
    engine.set_square(12, Side::White, None);
    engine.set_initial_position();
    engine.set_square(30, Side::Black, Some(PieceType::Bishop));
    let white = engine.board.bitboard_by_side[0];
    let black = engine.board.bitboard_by_side[1];
    assert_eq!(white & black, 0);
}

#[test]
fn set_square_overwrites_the_square() {
    let mut engine = Engine::default();
    engine.set_square(10, Side::White, Some(PieceType::Rook));
    engine.set_square(10, Side::Black, Some(PieceType::Queen));
    assert_eq!(engine.squares_by_type[10], Some(PieceType::Queen));
    assert_eq!(engine.board.bitboard_by_side[0] & (1 << 10), 0);
    assert_ne!(engine.board.bitboard_by_side[1] & (1 << 10), 0);
    assert_eq!(engine.board.bitboard_by_piece[3] & (1 << 10), 0);
    assert_ne!(engine.board.bitboard_by_piece[4] & (1 << 10), 0);
}

#[test]
fn clearing_a_square_empties_it_everywhere() {
    let mut engine = Engine::default();
    engine.set_square(20, Side::Black, Some(PieceType::Knight));
    engine.set_square(20, Side::Black, None);
    assert_eq!(engine.squares_by_type[20], None);
    for i in 0..2 {
        assert_eq!(engine.board.bitboard_by_side[i] & (1 << 20), 0);
    }
    for i in 0..6 {
        assert_eq!(engine.board.bitboard_by_piece[i] & (1 << 20), 0);
    }
}

#[test]
fn make_move_from_empty_square_is_rejected() {
    let mut engine = Engine::default();
    let result = engine.make_move(Move {
        from: 12,
        to: 28,
        promote: None,
    });
    assert_eq!(result, Err(InvalidMove::EmptySource));
}

#[test]
fn make_move_moves_the_piece() {
    let mut engine = Engine::default();
    engine.set_initial_position();
    // e2-e4.
    let result = engine.make_move(Move {
        from: 12,
        to: 28,
        promote: None,
    });
    assert_eq!(result, Ok(()));
    assert_eq!(engine.squares_by_type[12], None);
    assert_eq!(engine.squares_by_type[28], Some(PieceType::Pawn));
    assert_ne!(engine.board.bitboard_by_side[0] & (1 << 28), 0);
    assert_eq!(engine.board.bitboard_by_side[0] & (1 << 12), 0);
}

#[test]
fn make_move_capture_clears_the_victim() {
    let mut engine = Engine::default();
    engine.set_square(35, Side::White, Some(PieceType::Pawn));
    engine.set_square(44, Side::Black, Some(PieceType::Pawn));
    let result = engine.make_move(Move {
        from: 35,
        to: 44,
        promote: None,
    });
    assert_eq!(result, Ok(()));
    assert_eq!(engine.squares_by_type[44], Some(PieceType::Pawn));
    assert_ne!(engine.board.bitboard_by_side[0] & (1 << 44), 0);
    assert_eq!(engine.board.bitboard_by_side[1] & (1 << 44), 0);
    assert_eq!(engine.board.bitboard_by_side[0] & engine.board.bitboard_by_side[1], 0);
}

#[test]
fn make_move_applies_promotion() {
    let mut engine = Engine::default();
    engine.set_square(48, Side::White, Some(PieceType::Pawn));
    let result = engine.make_move(Move {
        from: 48,
        to: 56,
        promote: Some(PieceType::Queen),
    });
    assert_eq!(result, Ok(()));
    assert_eq!(engine.squares_by_type[56], Some(PieceType::Queen));
    assert_ne!(engine.board.bitboard_by_piece[4] & (1u64 << 56), 0);
    assert_eq!(engine.board.bitboard_by_piece[0] & (1u64 << 56), 0);
}

#[test]
fn full_game_opening_scenario() {
    let mut engine = Engine::default();
    engine.set_initial_position();
    // 32 pieces on the board.
    let occupied =
        engine.board.bitboard_by_side[0].count_ones() + engine.board.bitboard_by_side[1].count_ones();
    assert_eq!(occupied, 32);
    // White to move: exactly 16 pawn moves, none promoting.
    let moves = engine.generate_moves(Side::White);
    assert_eq!(moves.len(), 16);
    assert!(moves.iter().all(|m| m.promote.is_none()));
    // Play one and look again from Black's side.
    let result = engine.make_move(moves[0]);
    assert_eq!(result, Ok(()));
    let replies = engine.generate_moves(Side::Black);
    assert_eq!(replies.len(), 16);
}
