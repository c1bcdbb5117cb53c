//! Sides, piece types, moves, and the engine facade.
//!
//! The [`Engine`] owns a [`Board`] together with a piece-type-per-square
//! index, and keeps the two consistent: every placement or removal goes
//! through [`Engine::set_square`], which rewrites the square in the index
//! and in every affected bitboard.

use vstd::prelude::*;

use crate::bitboard::bit_set;
use crate::bitboard::lemma_and_bits_int;
use crate::bitboard::lemma_not_bits_int;
use crate::bitboard::lemma_one_shl_int;
use crate::bitboard::lemma_or_bits_int;
use crate::bitboard::lemma_trailing_zeros;
use crate::bitboard::Bitboard;
use crate::board::lemma_attacks_wf_same;
use crate::board::pawn_move_ok;
use crate::board::Board;
use vstd::std_specs::bits::u64_trailing_zeros;

verus! {

broadcast use vstd::array::group_array_axioms;

/// The type of a piece.  Each type has a dense 0-based index used for the
/// per-piece-type tables.
#[derive(Copy, Clone, PartialEq, Eq, Debug)]
pub enum PieceType {
    Pawn,
    Knight,
    Bishop,
    Rook,
    Queen,
    King,
}

/// How many piece types there are: the length of every per-piece-type
/// table.
pub const PIECE_TYPE_COUNT: usize = 6;

impl PieceType {
    /// Dense 0-based index of this piece type.
    pub open spec fn spec_val(&self) -> usize {
        match self {
            PieceType::Pawn => 0,
            PieceType::Knight => 1,
            PieceType::Bishop => 2,
            PieceType::Rook => 3,
            PieceType::Queen => 4,
            PieceType::King => 5,
        }
    }

    /// Dense 0-based index of this piece type, for array lookups.
    #[verifier::when_used_as_spec(spec_val)]
    pub fn val(&self) -> (r: usize)
        ensures
            r == self.spec_val(),
            r < 6,
    {
        match self {
            PieceType::Pawn => 0,
            PieceType::Knight => 1,
            PieceType::Bishop => 2,
            PieceType::Rook => 3,
            PieceType::Queen => 4,
            PieceType::King => 5,
        }
    }
}

/// One of the two players.
#[derive(PartialEq, Eq, Copy, Clone, Debug)]
pub enum Side {
    White,
    Black,
}

impl Side {
    /// Dense 0-based index of this side.
    pub open spec fn spec_val(&self) -> usize {
        match self {
            Side::White => 0,
            Side::Black => 1,
        }
    }

    /// Dense 0-based index of this side, for array lookups.
    #[verifier::when_used_as_spec(spec_val)]
    pub fn val(&self) -> (r: usize)
        ensures
            r == self.spec_val(),
            r < 2,
    {
        match self {
            Side::White => 0,
            Side::Black => 1,
        }
    }

    /// The opposing side.
    pub open spec fn spec_flip(&self) -> Side {
        match self {
            Side::White => Side::Black,
            Side::Black => Side::White,
        }
    }

    /// The opposing side.
    #[verifier::when_used_as_spec(spec_flip)]
    pub fn flip(&self) -> (r: Side)
        ensures
            r == self.spec_flip(),
    {
        match self {
            Side::White => Side::Black,
            Side::Black => Side::White,
        }
    }
}

/// A candidate move: source square index, destination square index, and
/// the piece type a pawn promotes to on arrival, if any.
#[derive(Copy, Clone, PartialEq, Eq, Debug)]
pub struct Move {
    pub from: u32,
    pub to: u32,
    pub promote: Option<PieceType>,
}

/// Why a requested move was rejected.
#[derive(Copy, Clone, PartialEq, Eq, Debug)]
pub enum InvalidMove {
    /// The source square holds no piece.
    EmptySource,
}

/// The engine: a board plus a piece-type-per-square index that mirrors
/// the board's bitboards.
pub struct Engine {
    /// Which type of piece, if any, is on a given square.
    pub squares_by_type: [Option<PieceType>; 64],
    /// The occupancy bitboards and attack table.
    pub board: Board,
}

impl Engine {
    /// The engine is consistent: the attack table is the constructed one,
    /// no square is claimed by both sides, a square is occupied exactly
    /// when the index holds a piece for it, and the per-piece-type
    /// bitboards say exactly what the index says.
    pub open spec fn wf(self) -> bool {
        &&& self.board.attacks_wf()
        &&& forall|t: int|
            0 <= t < 64 ==> !(#[trigger] bit_set(self.board.side_bb(Side::White), t) && bit_set(
                self.board.side_bb(Side::Black),
                t,
            ))
        &&& forall|t: int|
            0 <= t < 64 ==> ((#[trigger] self.squares_by_type[t]) is Some == (bit_set(
                self.board.side_bb(Side::White),
                t,
            ) || bit_set(self.board.side_bb(Side::Black), t)))
        &&& forall|t: int, p: PieceType|
            0 <= t < 64 ==> (#[trigger] bit_set(self.board.piece_bb(p), t)
                == (self.squares_by_type[t] == Some(p)))
    }

    /// The side owning the piece on square `t`: White when White's
    /// bitboard claims it, Black otherwise.
    pub open spec fn owner_of(self, t: int) -> Side {
        if bit_set(self.board.side_bb(Side::White), t) {
            Side::White
        } else {
            Side::Black
        }
    }

    /// The engine's display name.
    pub fn name(&self) -> (r: &str)
        ensures
            r@ == "Chess Engine"@,
    {
        "Chess Engine"
    }

    /// The engine's author.
    pub fn author(&self) -> (r: &str)
        ensures
            r@ == "Nathan Gardiner"@,
    {
        "Nathan Gardiner"
    }

    /// Place the 32 pieces of the standard starting position: pawns on
    /// the second and seventh ranks, the back-rank pieces behind them.
    /// Squares outside the four home ranks are left as they were.
    #[verifier::loop_isolation(false)]
    #[verifier::rlimit(30)]
    pub fn set_initial_position(&mut self)
        requires
            old(self).wf(),
        ensures
            final(self).wf(),
            final(self).board.attacks_by_piece == old(self).board.attacks_by_piece,
            forall|t: int|
                (0 <= t < 16 || 48 <= t < 64) ==> #[trigger] final(self).squares_by_type[t]
                    == initial_piece_at(t),
            forall|t: int|
                16 <= t < 48 ==> #[trigger] final(self).squares_by_type[t]
                    == old(self).squares_by_type[t],
            forall|t: int|
                0 <= t < 16 ==> (#[trigger] bit_set(final(self).board.side_bb(Side::White), t)
                    && !bit_set(final(self).board.side_bb(Side::Black), t)),
            forall|t: int|
                48 <= t < 64 ==> (#[trigger] bit_set(final(self).board.side_bb(Side::Black), t)
                    && !bit_set(final(self).board.side_bb(Side::White), t)),
            forall|t: int|
                16 <= t < 48 ==> #[trigger] bit_set(final(self).board.side_bb(Side::White), t)
                    == bit_set(old(self).board.side_bb(Side::White), t),
            forall|t: int|
                16 <= t < 48 ==> #[trigger] bit_set(final(self).board.side_bb(Side::Black), t)
                    == bit_set(old(self).board.side_bb(Side::Black), t),
    {
        let ghost orig = *old(self);
        let mut file: usize = 1;
        while file <= 8
            invariant
                1 <= file <= 9,
                self.wf(),
                self.board.attacks_by_piece == orig.board.attacks_by_piece,
                forall|t: int|
                    8 <= t < 7 + file ==> #[trigger] self.squares_by_type[t] == Some(
                        PieceType::Pawn,
                    ),
                forall|t: int|
                    48 <= t < 47 + file ==> #[trigger] self.squares_by_type[t] == Some(
                        PieceType::Pawn,
                    ),
                forall|t: int|
                    8 <= t < 7 + file ==> (#[trigger] bit_set(self.board.side_bb(Side::White), t)
                        && !bit_set(self.board.side_bb(Side::Black), t)),
                forall|t: int|
                    48 <= t < 47 + file ==> (#[trigger] bit_set(self.board.side_bb(Side::Black), t)
                        && !bit_set(self.board.side_bb(Side::White), t)),
                forall|t: int|
                    0 <= t < 64 && !(8 <= t < 7 + file) && !(48 <= t < 47 + file)
                        ==> #[trigger] self.squares_by_type[t] == orig.squares_by_type[t],
                forall|t: int|
                    0 <= t < 64 && !(8 <= t < 7 + file) && !(48 <= t < 47 + file)
                        ==> #[trigger] bit_set(self.board.side_bb(Side::White), t) == bit_set(
                        orig.board.side_bb(Side::White),
                        t,
                    ),
                forall|t: int|
                    0 <= t < 64 && !(8 <= t < 7 + file) && !(48 <= t < 47 + file)
                        ==> #[trigger] bit_set(self.board.side_bb(Side::Black), t) == bit_set(
                        orig.board.side_bb(Side::Black),
                        t,
                    ),
            decreases 9 - file,
        {
            self.set_square(7 + file, Side::White, Some(PieceType::Pawn));
            self.set_square(47 + file, Side::Black, Some(PieceType::Pawn));
            file = file + 1;
        }

        self.set_square(1, Side::White, Some(PieceType::Knight));
        self.set_square(6, Side::White, Some(PieceType::Knight));
        self.set_square(57, Side::Black, Some(PieceType::Knight));
        self.set_square(62, Side::Black, Some(PieceType::Knight));

        self.set_square(2, Side::White, Some(PieceType::Bishop));
        self.set_square(5, Side::White, Some(PieceType::Bishop));
        self.set_square(58, Side::Black, Some(PieceType::Bishop));
        self.set_square(61, Side::Black, Some(PieceType::Bishop));

        self.set_square(0, Side::White, Some(PieceType::Rook));
        self.set_square(7, Side::White, Some(PieceType::Rook));
        self.set_square(56, Side::Black, Some(PieceType::Rook));
        self.set_square(63, Side::Black, Some(PieceType::Rook));

        self.set_square(3, Side::White, Some(PieceType::Queen));
        self.set_square(59, Side::Black, Some(PieceType::Queen));

        self.set_square(4, Side::White, Some(PieceType::King));
        self.set_square(60, Side::Black, Some(PieceType::King));
    }

    /// Place a piece of `piece_type` for `side` at `square_idx`, or clear
    /// the square when `piece_type` is `None`.  The square is rewritten
    /// outright: it is first cleared from both sides' bitboards and from
    /// every piece-type bitboard, then set for `side` and `piece_type`,
    /// so the index and the bitboards stay consistent.
    #[verifier::loop_isolation(false)]
    pub fn set_square(&mut self, square_idx: usize, side: Side, piece_type: Option<PieceType>)
        requires
            old(self).wf(),
            square_idx < 64,
        ensures
            final(self).wf(),
            final(self).squares_by_type@ == old(self).squares_by_type@.update(
                square_idx as int,
                piece_type,
            ),
            final(self).board.attacks_by_piece == old(self).board.attacks_by_piece,
            forall|t: int|
                0 <= t < 64 && t != square_idx ==> #[trigger] bit_set(
                    final(self).board.side_bb(Side::White),
                    t,
                ) == bit_set(old(self).board.side_bb(Side::White), t),
            forall|t: int|
                0 <= t < 64 && t != square_idx ==> #[trigger] bit_set(
                    final(self).board.side_bb(Side::Black),
                    t,
                ) == bit_set(old(self).board.side_bb(Side::Black), t),
            forall|t: int, p: PieceType|
                0 <= t < 64 && t != square_idx ==> (#[trigger] bit_set(
                    final(self).board.piece_bb(p),
                    t,
                ) == bit_set(old(self).board.piece_bb(p), t)),
            bit_set(final(self).board.side_bb(side), square_idx as int) == piece_type is Some,
            !bit_set(final(self).board.side_bb(side.flip()), square_idx as int),
            forall|p: PieceType|
                #[trigger] bit_set(final(self).board.piece_bb(p), square_idx as int) == (piece_type
                    == Some(p)),
    {
        let ghost prev = *self;
        let ghost s = square_idx as int;
        self.squares_by_type[square_idx] = piece_type;
        let mask: Bitboard = 1u64 << (square_idx as u64);
        proof {
            lemma_one_shl_int(square_idx as u64);
            lemma_not_bits_int(mask);
        }

        // Clear the square from both sides and from every piece type.
        let w = self.board.bitboard_by_side[0];
        self.board.bitboard_by_side[0] = w & !mask;
        let bl = self.board.bitboard_by_side[1];
        self.board.bitboard_by_side[1] = bl & !mask;
        proof {
            lemma_and_bits_int(w, !mask);
            lemma_and_bits_int(bl, !mask);
        }
        let mut i: usize = 0;
        while i < PIECE_TYPE_COUNT
            invariant
                i <= 6,
                forall|j: int|
                    0 <= j < i ==> self.board.bitboard_by_piece[j] == (
                    prev.board.bitboard_by_piece[j] & !mask),
                forall|j: int|
                    i <= j < 6 ==> self.board.bitboard_by_piece[j]
                        == prev.board.bitboard_by_piece[j],
                self.board.bitboard_by_side@ == seq![w & !mask, bl & !mask],
                self.board.attacks_by_piece == prev.board.attacks_by_piece,
                self.squares_by_type@ == prev.squares_by_type@.update(s, piece_type),
            decreases 6 - i,
        {
            let pb = self.board.bitboard_by_piece[i];
            self.board.bitboard_by_piece[i] = pb & !mask;
            i = i + 1;
        }
        proof {
            assert forall|p: PieceType, t: int|
                #[trigger] bit_set(self.board.piece_bb(p), t) == (bit_set(prev.board.piece_bb(p), t)
                    && t != s) by {
                lemma_and_bits_int(prev.board.piece_bb(p), !mask);
            }
        }

        // Set the square, if a piece is given.
        if let Some(pt) = piece_type {
            let sb = self.board.bitboard_by_side[side.val()];
            self.board.bitboard_by_side[side.val()] = sb | mask;
            let pb = self.board.bitboard_by_piece[pt.val()];
            self.board.bitboard_by_piece[pt.val()] = pb | mask;
            proof {
                lemma_or_bits_int(sb, mask);
                lemma_or_bits_int(pb, mask);
                assert forall|p: PieceType, t: int|
                    #[trigger] bit_set(self.board.piece_bb(p), t) == ((bit_set(
                        prev.board.piece_bb(p),
                        t,
                    ) && t != s) || (p == pt && t == s)) by {
                    lemma_and_bits_int(prev.board.piece_bb(p), !mask);
                    if p.val() == pt.val() {
                        assert(p == pt);
                        assert(self.board.piece_bb(p) == (pb | mask));
                        assert(pb == (prev.board.piece_bb(pt) & !mask));
                    } else {
                        assert(self.board.piece_bb(p) == (prev.board.piece_bb(p) & !mask));
                    }
                }
            }
        }
        proof {
            let fin = *self;
            lemma_attacks_wf_same(prev.board, fin.board);
            assert(forall|t: int|
                0 <= t < 64 ==> !(#[trigger] bit_set(fin.board.side_bb(Side::White), t) && bit_set(
                    fin.board.side_bb(Side::Black),
                    t,
                )));
            assert(forall|t: int|
                0 <= t < 64 ==> ((#[trigger] fin.squares_by_type[t]) is Some == (bit_set(
                    fin.board.side_bb(Side::White),
                    t,
                ) || bit_set(fin.board.side_bb(Side::Black), t))));
            assert(forall|t: int, p: PieceType|
                0 <= t < 64 ==> (#[trigger] bit_set(fin.board.piece_bb(p), t)
                    == (fin.squares_by_type[t] == Some(p))));
        }
    }

    /// Apply `piece_move`: take the piece off the source square and put
    /// it (or its promotion) on the destination for the side that owns
    /// the source.  When the source square is empty the move is rejected
    /// and nothing changes.
    pub fn make_move(&mut self, piece_move: Move) -> (r: Result<(), InvalidMove>)
        requires
            old(self).wf(),
            piece_move.from < 64,
            piece_move.to < 64,
        ensures
            final(self).wf(),
            old(self).squares_by_type[piece_move.from as int] is None ==> (r == Err::<
                (),
                InvalidMove,
            >(InvalidMove::EmptySource) && *final(self) == *old(self)),
            old(self).squares_by_type[piece_move.from as int] is Some ==> ({
                let from = piece_move.from as int;
                let to = piece_move.to as int;
                let mover = old(self).owner_of(from);
                let pt = match piece_move.promote {
                    Some(p) => p,
                    None => old(self).squares_by_type[from]->0,
                };
                &&& r == Ok::<(), InvalidMove>(())
                &&& final(self).squares_by_type@ == old(self).squares_by_type@.update(
                    from,
                    None,
                ).update(to, Some(pt))
                &&& final(self).board.attacks_by_piece == old(self).board.attacks_by_piece
                &&& forall|t: int|
                    0 <= t < 64 && t != from && t != to ==> #[trigger] bit_set(
                        final(self).board.side_bb(Side::White),
                        t,
                    ) == bit_set(old(self).board.side_bb(Side::White), t)
                &&& forall|t: int|
                    0 <= t < 64 && t != from && t != to ==> #[trigger] bit_set(
                        final(self).board.side_bb(Side::Black),
                        t,
                    ) == bit_set(old(self).board.side_bb(Side::Black), t)
                &&& forall|t: int, p: PieceType|
                    0 <= t < 64 && t != from && t != to ==> (#[trigger] bit_set(
                        final(self).board.piece_bb(p),
                        t,
                    ) == bit_set(old(self).board.piece_bb(p), t))
                &&& from != to ==> final(self).squares_by_type[from] is None && !bit_set(
                    final(self).board.side_bb(Side::White),
                    from,
                ) && !bit_set(final(self).board.side_bb(Side::Black), from)
                &&& final(self).squares_by_type[to] == Some(pt)
                &&& bit_set(final(self).board.side_bb(mover), to)
                &&& !bit_set(final(self).board.side_bb(mover.flip()), to)
                &&& forall|p: PieceType|
                    #[trigger] bit_set(final(self).board.piece_bb(p), to) == (p == pt)
            }),
    {
        let from_index = piece_move.from as usize;
        let to_index = piece_move.to as usize;

        // Ascertain which side is making the move.
        let w = self.board.bitboard_by_side[0];
        let side = if w & (1u64 << piece_move.from) != 0 {
            Side::White
        } else {
            Side::Black
        };
        proof {
            lemma_one_shl_int(piece_move.from as u64);
            lemma_and_bits_int(w, 1u64 << (piece_move.from as u64));
            crate::bitboard::lemma_zero_bits_int();
            if bit_set(w, piece_move.from as int) {
                assert(bit_set(w & (1u64 << (piece_move.from as u64)), piece_move.from as int));
            } else {
                if w & (1u64 << (piece_move.from as u64)) != 0 {
                    lemma_trailing_zeros(w & (1u64 << (piece_move.from as u64)));
                    assert(bit_set(
                        w & (1u64 << (piece_move.from as u64)),
                        u64_trailing_zeros(w & (1u64 << (piece_move.from as u64))) as int,
                    ));
                }
            }
            assert(side == old(self).owner_of(piece_move.from as int));
        }

        // Ascertain the piece type.
        let from_piece_type = self.squares_by_type[from_index];

        if from_piece_type.is_none() {
            return Err(InvalidMove::EmptySource);
        }
        let to_piece_type = match piece_move.promote {
            Some(p) => p,
            None => from_piece_type.unwrap(),
        };

        let ghost orig = *old(self);
        let ghost from = piece_move.from as int;
        let ghost to = piece_move.to as int;
        self.set_square(from_index, side, None);
        let ghost mid = *self;
        self.set_square(to_index, side, Some(to_piece_type));
        proof {
            let fin = *self;
            assert(from_index as int == from && to_index as int == to);
            assert(fin.squares_by_type@ == orig.squares_by_type@.update(from, None).update(
                to,
                Some(to_piece_type),
            ));
            assert forall|t: int|
                0 <= t < 64 && t != from && t != to implies #[trigger] bit_set(
                fin.board.side_bb(Side::White),
                t,
            ) == bit_set(orig.board.side_bb(Side::White), t) by {
                assert(bit_set(mid.board.side_bb(Side::White), t) == bit_set(
                    orig.board.side_bb(Side::White),
                    t,
                ));
                assert(bit_set(fin.board.side_bb(Side::White), t) == bit_set(
                    mid.board.side_bb(Side::White),
                    t,
                ));
            }
            assert forall|t: int|
                0 <= t < 64 && t != from && t != to implies #[trigger] bit_set(
                fin.board.side_bb(Side::Black),
                t,
            ) == bit_set(orig.board.side_bb(Side::Black), t) by {
                assert(bit_set(mid.board.side_bb(Side::Black), t) == bit_set(
                    orig.board.side_bb(Side::Black),
                    t,
                ));
                assert(bit_set(fin.board.side_bb(Side::Black), t) == bit_set(
                    mid.board.side_bb(Side::Black),
                    t,
                ));
            }
            assert forall|t: int, p: PieceType|
                0 <= t < 64 && t != from && t != to implies (#[trigger] bit_set(
                fin.board.piece_bb(p),
                t,
            ) == bit_set(orig.board.piece_bb(p), t)) by {
                assert(bit_set(mid.board.piece_bb(p), t) == bit_set(orig.board.piece_bb(p), t));
                assert(bit_set(fin.board.piece_bb(p), t) == bit_set(mid.board.piece_bb(p), t));
            }
            if from != to {
                assert(bit_set(mid.board.side_bb(side), from) == false);
                assert(!bit_set(mid.board.side_bb(side.flip()), from));
                assert(bit_set(fin.board.side_bb(Side::White), from) == bit_set(
                    mid.board.side_bb(Side::White),
                    from,
                ));
                assert(bit_set(fin.board.side_bb(Side::Black), from) == bit_set(
                    mid.board.side_bb(Side::Black),
                    from,
                ));
            }
        }
        Ok(())
    }

    /// Generate the candidate moves for `side`: at present, exactly the
    /// pawn moves.
    pub fn generate_moves(&self, side: Side) -> (moves: Vec<Move>)
        ensures
            forall|m: Move| #[trigger] moves@.contains(m) == pawn_move_ok(self.board, side, m),
            moves@.no_duplicates(),
    {
        let mut moves: Vec<Move> = Vec::new();

        let mut pawn_moves = self.board.generate_pawn_moves(side);
        let ghost pm = pawn_moves@;
        moves.append(&mut pawn_moves);
        proof {
            assert(moves@ =~= pm);
        }

        // Knight moves are not yet fully implemented, so leave out for now.
        moves
    }

    /// The letter a piece prints as: uppercase for White, lowercase for
    /// Black.
    pub fn char_from_piece(&self, piece_type: PieceType, side: Side) -> (c: char)
        ensures
            c == piece_char(piece_type, side),
    {
        match side {
            Side::White => match piece_type {
                PieceType::Pawn => 'P',
                PieceType::Knight => 'N',
                PieceType::Bishop => 'B',
                PieceType::Rook => 'R',
                PieceType::Queen => 'Q',
                PieceType::King => 'K',
            },
            Side::Black => match piece_type {
                PieceType::Pawn => 'p',
                PieceType::Knight => 'n',
                PieceType::Bishop => 'b',
                PieceType::Rook => 'r',
                PieceType::Queen => 'q',
                PieceType::King => 'k',
            },
        }
    }
}

/// The piece type standing on square `t` in the standard starting
/// position, if any.
pub open spec fn initial_piece_at(t: int) -> Option<PieceType> {
    if 8 <= t < 16 || 48 <= t < 56 {
        Some(PieceType::Pawn)
    } else if t == 1 || t == 6 || t == 57 || t == 62 {
        Some(PieceType::Knight)
    } else if t == 2 || t == 5 || t == 58 || t == 61 {
        Some(PieceType::Bishop)
    } else if t == 0 || t == 7 || t == 56 || t == 63 {
        Some(PieceType::Rook)
    } else if t == 3 || t == 59 {
        Some(PieceType::Queen)
    } else if t == 4 || t == 60 {
        Some(PieceType::King)
    } else {
        None
    }
}

/// The letter a piece prints as: uppercase for White, lowercase for
/// Black.
pub open spec fn piece_char(piece_type: PieceType, side: Side) -> char {
    match side {
        Side::White => match piece_type {
            PieceType::Pawn => 'P',
            PieceType::Knight => 'N',
            PieceType::Bishop => 'B',
            PieceType::Rook => 'R',
            PieceType::Queen => 'Q',
            PieceType::King => 'K',
        },
        Side::Black => match piece_type {
            PieceType::Pawn => 'p',
            PieceType::Knight => 'n',
            PieceType::Bishop => 'b',
            PieceType::Rook => 'r',
            PieceType::Queen => 'q',
            PieceType::King => 'k',
        },
    }
}

/// Occupancy disjointness: a well-formed engine never lets both sides
/// claim one square, whatever sequence of placements built it.
pub proof fn lemma_occupancy_disjoint(e: Engine)
    requires
        e.wf(),
    ensures
        e.board.side_bb(Side::White) & e.board.side_bb(Side::Black) == 0,
        forall|t: int|
            !(#[trigger] bit_set(e.board.side_bb(Side::White), t) && bit_set(
                e.board.side_bb(Side::Black),
                t,
            )),
{
    let w = e.board.side_bb(Side::White);
    let bl = e.board.side_bb(Side::Black);
    lemma_and_bits_int(w, bl);
    if w & bl != 0 {
        lemma_trailing_zeros(w & bl);
        assert(bit_set(w & bl, u64_trailing_zeros(w & bl) as int));
        assert(false);
    }
}

impl Default for Engine {
    /// An engine with an empty board and a populated attack table.
    fn default() -> (e: Self)
        ensures
            e.wf(),
            forall|t: int| 0 <= t < 64 ==> (#[trigger] e.squares_by_type[t]) is None,
            e.board.bitboard_by_side[0] == 0u64,
            e.board.bitboard_by_side[1] == 0u64,
            forall|p: int| 0 <= p < 6 ==> e.board.bitboard_by_piece[p] == 0u64,
    {
        let e = Engine { squares_by_type: [None;64], board: Board::new() };
        proof {
            crate::bitboard::lemma_zero_bits_int();
        }
        e
    }
}

} // verus!
