//! The board: occupancy bitboards, the knight-attack table, and pawn and
//! knight candidate-move generation.
//!
//! Move generation is a pure query over a board snapshot: it reads the
//! occupancy bitboards, never mutates them, and returns every legal-shape
//! move exactly once.  Moves are pseudo-legal: nothing here checks whether
//! the mover's king is left in check.

use vstd::prelude::*;
use vstd::std_specs::bits::u64_trailing_zeros;

use crate::bitboard::bb_shift;
use crate::bitboard::bit_set;
use crate::bitboard::file_of;
use crate::bitboard::lemma_and_bits_int;
use crate::bitboard::lemma_ls1b_extract;
use crate::bitboard::lemma_offset_square;
use crate::bitboard::lemma_offset_square_fwd;
use crate::bitboard::lemma_one_shl_int;
use crate::bitboard::lemma_or_bits_int;
use crate::bitboard::lemma_rank_masks_int;
use crate::bitboard::lemma_shift_semantics;
use crate::bitboard::lemma_shl_bits_int;
use crate::bitboard::lemma_shr_bits_int;
use crate::bitboard::lemma_trailing_zeros;
use crate::bitboard::lemma_zero_bits_int;
use crate::bitboard::rank_of;
use crate::bitboard::spec_get_ls1b;
use crate::bitboard::spec_remove_ls1b;
use crate::bitboard::Bitboard;
use crate::bitboard::BitboardOps;
use crate::bitboard::Direction;
use crate::bitboard::RANK_1;
use crate::bitboard::RANK_2;
use crate::bitboard::RANK_7;
use crate::bitboard::RANK_8;
use crate::engine::Move;
use crate::engine::PieceType;
use crate::engine::Side;

verus! {

broadcast use vstd::array::group_array_axioms;

/// The rank a side's pawns advance along: +1 per step for White, -1 for
/// Black.
pub open spec fn pawn_dir(side: Side) -> int {
    if side == Side::White {
        1
    } else {
        -1
    }
}

/// The rank (0-based) a side's pawns start on: the rank from which a
/// double push is allowed.
pub open spec fn pawn_start_rank(side: Side) -> int {
    if side == Side::White {
        1
    } else {
        6
    }
}

/// The rank (0-based) on which a side's pawns promote.
pub open spec fn back_rank(side: Side) -> int {
    if side == Side::White {
        7
    } else {
        0
    }
}

/// The promotion a pawn move carries: a queen exactly when the
/// destination lies on the mover's promotion rank.
pub open spec fn promo_for(side: Side, to: int) -> Option<PieceType> {
    if rank_of(to) == back_rank(side) {
        Some(PieceType::Queen)
    } else {
        None
    }
}

/// Square `t` is one knight leap away from square `s`.
pub open spec fn knight_reaches(s: int, t: int) -> bool {
    &&& 0 <= s < 64
    &&& 0 <= t < 64
    &&& {
        let df = file_of(t) - file_of(s);
        let dr = rank_of(t) - rank_of(s);
        ||| (df == 1 && dr == 2)
        ||| (df == 2 && dr == 1)
        ||| (df == 2 && dr == -1)
        ||| (df == 1 && dr == -2)
        ||| (df == -1 && dr == -2)
        ||| (df == -2 && dr == -1)
        ||| (df == -2 && dr == 1)
        ||| (df == -1 && dr == 2)
    }
}

/// The authoritative occupancy state plus the precomputed attack table.
pub struct Board {
    /// Per piece type and source square, the squares attacked from there,
    /// ignoring occupancy.  Only the knight slice is populated.
    pub attacks_by_piece: [[Bitboard; 64]; 6],
    /// Per side, the squares occupied by that side's pieces.
    pub bitboard_by_side: [Bitboard; 2],
    /// Per piece type, the squares occupied by that type, either side.
    pub bitboard_by_piece: [Bitboard; 6],
}

impl Board {
    /// Squares occupied by `side`'s pieces.
    pub open spec fn side_bb(self, side: Side) -> Bitboard {
        self.bitboard_by_side[side.val() as int]
    }

    /// Squares occupied by pieces of type `pt`, either side.
    pub open spec fn piece_bb(self, pt: PieceType) -> Bitboard {
        self.bitboard_by_piece[pt.val() as int]
    }

    /// The squares holding `side`'s pawns.
    pub open spec fn pawns_of(self, side: Side) -> Bitboard {
        self.piece_bb(PieceType::Pawn) & self.side_bb(side)
    }

    /// The squares holding `side`'s knights.
    pub open spec fn knights_of(self, side: Side) -> Bitboard {
        self.piece_bb(PieceType::Knight) & self.side_bb(side)
    }

    /// The squares occupied by neither side.
    pub open spec fn empty_bb(self) -> Bitboard {
        !self.side_bb(Side::White) & !self.side_bb(Side::Black)
    }

    /// The knight-attack table entry for source square `s`.
    pub open spec fn knight_attacks(self, s: int) -> Bitboard {
        self.attacks_by_piece[PieceType::Knight.val() as int][s]
    }

    /// The attack table is the one construction builds: the knight slice
    /// holds, per source square, exactly the squares a knight's leap
    /// reaches, and the other slices are empty.
    pub open spec fn attacks_wf(self) -> bool {
        &&& forall|s: int, t: int|
            0 <= s < 64 ==> (#[trigger] bit_set(self.knight_attacks(s), t) == knight_reaches(s, t))
        &&& forall|p: int, s: int|
            0 <= p < 6 && p != PieceType::Knight.val() && 0 <= s < 64
                ==> self.attacks_by_piece[p][s] == 0u64
    }
}

/// Move `m` is a single pawn push for `side`: one rank toward the
/// opponent from one of the mover's pawns onto an empty square, promoting
/// to a queen exactly when it arrives on the promotion rank.
pub open spec fn is_single_push(b: Board, side: Side, m: Move) -> bool {
    &&& m.to as int == m.from + 8 * pawn_dir(side)
    &&& bit_set(b.pawns_of(side), m.from as int)
    &&& bit_set(b.empty_bb(), m.to as int)
    &&& m.promote == promo_for(side, m.to as int)
}

/// Move `m` is a double pawn push for `side`: two ranks toward the
/// opponent from a pawn still on its starting rank, with both the
/// passed-through square and the destination empty.  A double push never
/// promotes.
pub open spec fn is_double_push(b: Board, side: Side, m: Move) -> bool {
    &&& m.to as int == m.from + 16 * pawn_dir(side)
    &&& rank_of(m.from as int) == pawn_start_rank(side)
    &&& bit_set(b.pawns_of(side), m.from as int)
    &&& bit_set(b.empty_bb(), m.from + 8 * pawn_dir(side))
    &&& bit_set(b.empty_bb(), m.to as int)
    &&& m.promote is None
}

/// Move `m` is a pawn capture toward the mover's east: one rank toward
/// the opponent and one file toward file h, onto an opposing piece.
pub open spec fn is_east_capture(b: Board, side: Side, m: Move) -> bool {
    &&& m.to as int == m.from + 8 * pawn_dir(side) + 1
    &&& file_of(m.from as int) < 7
    &&& bit_set(b.pawns_of(side), m.from as int)
    &&& bit_set(b.side_bb(side.flip()), m.to as int)
    &&& m.promote == promo_for(side, m.to as int)
}

/// Move `m` is a pawn capture toward the mover's west: one rank toward
/// the opponent and one file toward file a, onto an opposing piece.
pub open spec fn is_west_capture(b: Board, side: Side, m: Move) -> bool {
    &&& m.to as int == m.from + 8 * pawn_dir(side) - 1
    &&& file_of(m.from as int) > 0
    &&& bit_set(b.pawns_of(side), m.from as int)
    &&& bit_set(b.side_bb(side.flip()), m.to as int)
    &&& m.promote == promo_for(side, m.to as int)
}

/// Move `m` is a legal-shape pawn move for `side` on board `b`.
pub open spec fn pawn_move_ok(b: Board, side: Side, m: Move) -> bool {
    ||| is_single_push(b, side, m)
    ||| is_double_push(b, side, m)
    ||| is_east_capture(b, side, m)
    ||| is_west_capture(b, side, m)
}

/// Move `m` is a legal-shape knight move for `side` on board `b`: a leap
/// from one of the mover's knights onto an empty square.  Knight captures
/// are not generated, and a knight move never promotes.
pub open spec fn knight_move_ok(b: Board, side: Side, m: Move) -> bool {
    &&& bit_set(b.knights_of(side), m.from as int)
    &&& knight_reaches(m.from as int, m.to as int)
    &&& bit_set(b.empty_bb(), m.to as int)
    &&& m.promote is None
}

proof fn lemma_singleton_tz(x: Bitboard, s: int)
    requires
        0 <= s < 64,
        forall|i: int| #[trigger] bit_set(x, i) == (i == s),
    ensures
        x != 0,
        u64_trailing_zeros(x) == s,
{
    assert(bit_set(x, s));
    if x == 0 {
        lemma_zero_bits_int();
        assert(!bit_set(0u64, s));
        assert(false);
    }
    lemma_trailing_zeros(x);
    assert(bit_set(x, u64_trailing_zeros(x) as int));
}

proof fn lemma_singleton_and_mask(x: Bitboard, mask: Bitboard, s: int)
    requires
        0 <= s < 64,
        forall|i: int| #[trigger] bit_set(x, i) == (i == s),
    ensures
        (x & mask != 0) == bit_set(mask, s),
{
    lemma_and_bits_int(x, mask);
    if bit_set(mask, s) {
        assert(bit_set(x & mask, s));
        if x & mask == 0 {
            lemma_zero_bits_int();
            assert(!bit_set(0u64, s));
            assert(false);
        }
    } else {
        if x & mask != 0 {
            lemma_trailing_zeros(x & mask);
            let t = u64_trailing_zeros(x & mask) as int;
            assert(bit_set(x & mask, t));
        }
    }
}

proof fn lemma_push_keeps(s: Seq<Move>, m: Move)
    requires
        s.no_duplicates(),
        !s.contains(m),
    ensures
        s.push(m).no_duplicates(),
        forall|x: Move| #[trigger] s.push(m).contains(x) == (s.contains(x) || x == m),
{
    assert forall|x: Move| #[trigger] s.push(m).contains(x) == (s.contains(x) || x == m) by {
        if s.push(m).contains(x) {
            let k = choose|k: int| 0 <= k < s.push(m).len() && s.push(m)[k] == x;
            if k < s.len() {
                assert(s[k] == x);
            }
        }
        if s.contains(x) {
            let k = choose|k: int| 0 <= k < s.len() && s[k] == x;
            assert(s.push(m)[k] == x);
        }
        if x == m {
            assert(s.push(m)[s.len() as int] == x);
        }
    }
    assert forall|i: int, j: int|
        0 <= i < s.push(m).len() && 0 <= j < s.push(m).len() && i != j implies s.push(m)[i]
        != s.push(m)[j] by {
        if i < s.len() && j < s.len() {
            assert(s[i] != s[j]);
        } else if j == s.len() {
            assert(s.push(m)[j] == m);
            if s.push(m)[i] == m {
                assert(s[i] == m);
                assert(s.contains(m));
            }
        } else {
            assert(s.push(m)[i] == m);
            if s.push(m)[j] == m {
                assert(s[j] == m);
                assert(s.contains(m));
            }
        }
    }
}

impl Board {
    /// Construct a board with empty occupancy and the knight-attack table
    /// populated: for every source square, the union of the eight
    /// knight-leap shifts of that square's single-bit board.
    #[verifier::loop_isolation(false)]
    pub fn new() -> (b: Board)
        ensures
            b.attacks_wf(),
            b.bitboard_by_side[0] == 0u64,
            b.bitboard_by_side[1] == 0u64,
            forall|p: int| 0 <= p < 6 ==> b.bitboard_by_piece[p] == 0u64,
    {
        let mut knight_attacks: [Bitboard; 64] = [0;64];
        let mut square: usize = 0;
        while square < 64
            invariant
                square <= 64,
                forall|s: int, t: int|
                    0 <= s < square ==> (#[trigger] bit_set(knight_attacks[s], t)
                        == knight_reaches(s, t)),
            decreases 64 - square,
        {
            let single: Bitboard = 1u64 << (square as u64);
            let m1 = bb_shift(single, Direction::NNE);
            let m2 = bb_shift(single, Direction::NEE);
            let m3 = bb_shift(single, Direction::SEE);
            let m4 = bb_shift(single, Direction::SSE);
            let m5 = bb_shift(single, Direction::SSW);
            let m6 = bb_shift(single, Direction::SWW);
            let m7 = bb_shift(single, Direction::NWW);
            let m8 = bb_shift(single, Direction::NNW);
            let attacks = m1 | m2 | m3 | m4 | m5 | m6 | m7 | m8;
            proof {
                let s = square as int;
                lemma_one_shl_int(square as u64);
                lemma_shift_semantics(single, Direction::NNE);
                lemma_shift_semantics(single, Direction::NEE);
                lemma_shift_semantics(single, Direction::SEE);
                lemma_shift_semantics(single, Direction::SSE);
                lemma_shift_semantics(single, Direction::SSW);
                lemma_shift_semantics(single, Direction::SWW);
                lemma_shift_semantics(single, Direction::NWW);
                lemma_shift_semantics(single, Direction::NNW);
                lemma_or_bits_int(m1, m2);
                lemma_or_bits_int(m1 | m2, m3);
                lemma_or_bits_int(m1 | m2 | m3, m4);
                lemma_or_bits_int(m1 | m2 | m3 | m4, m5);
                lemma_or_bits_int(m1 | m2 | m3 | m4 | m5, m6);
                lemma_or_bits_int(m1 | m2 | m3 | m4 | m5 | m6, m7);
                lemma_or_bits_int(m1 | m2 | m3 | m4 | m5 | m6 | m7, m8);
                assert forall|t: int| #[trigger] bit_set(attacks, t) == knight_reaches(s, t) by {
                    if bit_set(attacks, t) {
                        if bit_set(m1, t) {
                            lemma_offset_square(s, t, 1, 2);
                        } else if bit_set(m2, t) {
                            lemma_offset_square(s, t, 2, 1);
                        } else if bit_set(m3, t) {
                            lemma_offset_square(s, t, 2, -1);
                        } else if bit_set(m4, t) {
                            lemma_offset_square(s, t, 1, -2);
                        } else if bit_set(m5, t) {
                            lemma_offset_square(s, t, -1, -2);
                        } else if bit_set(m6, t) {
                            lemma_offset_square(s, t, -2, -1);
                        } else if bit_set(m7, t) {
                            lemma_offset_square(s, t, -2, 1);
                        } else {
                            lemma_offset_square(s, t, -1, 2);
                        }
                    }
                    if knight_reaches(s, t) {
                        let df = file_of(t) - file_of(s);
                        let dr = rank_of(t) - rank_of(s);
                        vstd::arithmetic::div_mod::lemma_fundamental_div_mod(s, 8);
                        vstd::arithmetic::div_mod::lemma_fundamental_div_mod(t, 8);
                        assert(t == s + 8 * dr + df);
                        assert(0 <= t % 8 - df < 8);
                        assert(bit_set(attacks, t));
                    }
                }
            }
            knight_attacks[square] = attacks;
            square = square + 1;
        }
        let mut attacks_by_piece: [[Bitboard; 64]; 6] = [[0;64];6];
        attacks_by_piece[1] = knight_attacks;
        Board {
            attacks_by_piece,
            bitboard_by_side: [0;2],
            bitboard_by_piece: [0;6],
        }
    }

    /// Generate every legal-shape pawn move for `side`, each exactly
    /// once: single pushes, double pushes, and the two diagonal captures,
    /// with queen promotion flagged on the promotion rank.
    #[verifier::loop_isolation(false)]
    pub fn generate_pawn_moves(&self, side: Side) -> (moves: Vec<Move>)
        ensures
            forall|m: Move| #[trigger] moves@.contains(m) == pawn_move_ok(*self, side, m),
            moves@.no_duplicates(),
    {
        let ghost brd = *self;
        let ghost dir = pawn_dir(side);
        let opp_bitboard = self.bitboard_by_side[side.flip().val()];

        // Single / double pushes.
        let our_pawns = self.bitboard_by_piece[PieceType::Pawn.val()]
            & self.bitboard_by_side[side.val()];

        let empty = !self.bitboard_by_side[side.val()] & !opp_bitboard;

        let promotion_rank = match side {
            Side::White => RANK_8,
            Side::Black => RANK_1,
        };

        proof {
            let w = brd.side_bb(Side::White);
            let bl = brd.side_bb(Side::Black);
            if side == Side::Black {
                assert((!bl) & (!w) == (!w) & (!bl)) by (bit_vector);
            }
            assert(empty == brd.empty_bb());
            assert(our_pawns == brd.pawns_of(side));
            assert(opp_bitboard == brd.side_bb(side.flip()));
            lemma_rank_masks_int();
            assert forall|t: int|
                #[trigger] bit_set(promotion_rank, t) == (0 <= t < 64 && rank_of(t) == back_rank(
                    side,
                )) by {}
        }

        let mut moves: Vec<Move> = Vec::new();

        //
        // Pushes
        //
        let single_targets = single_pawn_push(our_pawns, empty, side);
        let mut remaining = single_targets;
        while remaining != 0
            invariant
                forall|i: int| #[trigger] bit_set(remaining, i) ==> bit_set(single_targets, i),
                forall|mm: Move|
                    #[trigger] moves@.contains(mm) == (is_single_push(brd, side, mm) && !bit_set(
                        remaining,
                        mm.to as int,
                    )),
                moves@.no_duplicates(),
            decreases remaining,
        {
            let ghost prev_moves = moves@;
            let ghost prev_remaining = remaining;
            let to_bb = remaining.get_ls1b();
            let ghost s = u64_trailing_zeros(spec_get_ls1b(prev_remaining)) as int;
            proof {
                lemma_ls1b_extract(prev_remaining);
                assert(bit_set(single_targets, s));
                assert(bit_set(brd.pawns_of(side), s - 8 * dir));
            }
            let from_bb = match side {
                Side::White => to_bb >> 8,
                Side::Black => to_bb << 8,
            };
            proof {
                if side == Side::White {
                    lemma_shr_bits_int(to_bb, 8);
                } else {
                    lemma_shl_bits_int(to_bb, 8);
                }
                assert forall|i: int| #[trigger] bit_set(from_bb, i) == (i == s - 8 * dir) by {}
                lemma_singleton_tz(from_bb, s - 8 * dir);
                lemma_singleton_tz(to_bb, s);
                lemma_singleton_and_mask(to_bb, promotion_rank, s);
            }
            let to_sq = to_bb.trailing_zeros();
            let from_sq = from_bb.trailing_zeros();
            let promote = if to_bb & promotion_rank != 0 {
                Some(PieceType::Queen)
            } else {
                None
            };
            let m = Move { from: from_sq, to: to_sq, promote };
            proof {
                assert(is_single_push(brd, side, m));
                assert(!prev_moves.contains(m));
                lemma_push_keeps(prev_moves, m);
            }
            moves.push(m);
            remaining = remaining.remove_ls1b();
            proof {
                assert forall|mm: Move|
                    #[trigger] moves@.contains(mm) == (is_single_push(brd, side, mm) && !bit_set(
                        remaining,
                        mm.to as int,
                    )) by {
                    if is_single_push(brd, side, mm) && mm.to as int == s {
                        assert(mm.from as int == s - 8 * dir);
                        assert(mm.promote == promo_for(side, s));
                        assert(mm == m);
                    }
                }
            }
        }
        proof {
            lemma_zero_bits_int();
            assert(forall|mm: Move|
                #[trigger] moves@.contains(mm) == is_single_push(brd, side, mm));
        }

        let double_targets = double_pawn_push(our_pawns, empty, side);
        let mut remaining_d = double_targets;
        while remaining_d != 0
            invariant
                forall|i: int| #[trigger] bit_set(remaining_d, i) ==> bit_set(double_targets, i),
                forall|mm: Move|
                    #[trigger] moves@.contains(mm) == (is_single_push(brd, side, mm) || (
                    is_double_push(brd, side, mm) && !bit_set(remaining_d, mm.to as int))),
                moves@.no_duplicates(),
            decreases remaining_d,
        {
            let ghost prev_moves = moves@;
            let ghost prev_remaining = remaining_d;
            let to_bb = remaining_d.get_ls1b();
            let ghost s = u64_trailing_zeros(spec_get_ls1b(prev_remaining)) as int;
            proof {
                lemma_ls1b_extract(prev_remaining);
                assert(bit_set(double_targets, s));
                assert(bit_set(brd.pawns_of(side), s - 16 * dir));
            }
            let from_bb = match side {
                Side::White => to_bb >> 16,
                Side::Black => to_bb << 16,
            };
            proof {
                if side == Side::White {
                    lemma_shr_bits_int(to_bb, 16);
                } else {
                    lemma_shl_bits_int(to_bb, 16);
                }
                assert forall|i: int| #[trigger] bit_set(from_bb, i) == (i == s - 16 * dir) by {}
                lemma_singleton_tz(from_bb, s - 16 * dir);
                lemma_singleton_tz(to_bb, s);
            }
            let to_sq = to_bb.trailing_zeros();
            let from_sq = from_bb.trailing_zeros();
            let m = Move { from: from_sq, to: to_sq, promote: None };
            proof {
                assert(is_double_push(brd, side, m));
                assert(!is_single_push(brd, side, m));
                assert(!prev_moves.contains(m));
                lemma_push_keeps(prev_moves, m);
            }
            moves.push(m);
            remaining_d = remaining_d.remove_ls1b();
            proof {
                assert forall|mm: Move|
                    #[trigger] moves@.contains(mm) == (is_single_push(brd, side, mm) || (
                    is_double_push(brd, side, mm) && !bit_set(remaining_d, mm.to as int))) by {
                    if is_double_push(brd, side, mm) && mm.to as int == s {
                        assert(mm.from as int == s - 16 * dir);
                        assert(mm == m);
                    }
                }
            }
        }
        proof {
            assert(forall|mm: Move|
                #[trigger] moves@.contains(mm) == (is_single_push(brd, side, mm) || is_double_push(
                    brd,
                    side,
                    mm,
                )));
        }

        //
        // Captures
        //
        let east_targets = pawn_east_attacks(our_pawns, opp_bitboard, side);
        let mut remaining_e = east_targets;
        while remaining_e != 0
            invariant
                forall|i: int| #[trigger] bit_set(remaining_e, i) ==> bit_set(east_targets, i),
                forall|mm: Move|
                    #[trigger] moves@.contains(mm) == (is_single_push(brd, side, mm)
                        || is_double_push(brd, side, mm) || (is_east_capture(brd, side, mm)
                        && !bit_set(remaining_e, mm.to as int))),
                moves@.no_duplicates(),
            decreases remaining_e,
        {
            let ghost prev_moves = moves@;
            let ghost prev_remaining = remaining_e;
            let to_bb = remaining_e.get_ls1b();
            let ghost s = u64_trailing_zeros(spec_get_ls1b(prev_remaining)) as int;
            let ghost src = s - 8 * dir - 1;
            proof {
                lemma_ls1b_extract(prev_remaining);
                assert(bit_set(east_targets, s));
                assert(bit_set(brd.pawns_of(side), src));
                assert(file_of(s) != 0);
                lemma_offset_square(src, s, 1, dir);
            }
            let source_bb = pawn_west_attacks(to_bb, our_pawns, side.flip());
            proof {
                assert forall|i: int| #[trigger] bit_set(source_bb, i) == (i == src) by {
                    assert(bit_set(source_bb, i) == (bit_set(our_pawns, i) && bit_set(
                        to_bb,
                        i - 8 * pawn_dir(side.flip()) + 1,
                    ) && file_of(i) != 7));
                }
                lemma_singleton_tz(source_bb, src);
                lemma_singleton_tz(to_bb, s);
                lemma_singleton_and_mask(to_bb, promotion_rank, s);
            }
            let from_sq = source_bb.trailing_zeros();
            let to_sq = to_bb.trailing_zeros();
            let promote = if to_bb & promotion_rank != 0 {
                Some(PieceType::Queen)
            } else {
                None
            };
            let m = Move { from: from_sq, to: to_sq, promote };
            proof {
                assert(is_east_capture(brd, side, m));
                assert(!is_single_push(brd, side, m));
                assert(!is_double_push(brd, side, m));
                assert(!prev_moves.contains(m));
                lemma_push_keeps(prev_moves, m);
            }
            moves.push(m);
            remaining_e = remaining_e.remove_ls1b();
            proof {
                assert forall|mm: Move|
                    #[trigger] moves@.contains(mm) == (is_single_push(brd, side, mm)
                        || is_double_push(brd, side, mm) || (is_east_capture(brd, side, mm)
                        && !bit_set(remaining_e, mm.to as int))) by {
                    if is_east_capture(brd, side, mm) && mm.to as int == s {
                        assert(mm.from as int == src);
                        assert(mm == m);
                    }
                }
            }
        }
        proof {
            assert(forall|mm: Move|
                #[trigger] moves@.contains(mm) == (is_single_push(brd, side, mm) || is_double_push(
                    brd,
                    side,
                    mm,
                ) || is_east_capture(brd, side, mm)));
        }

        let west_targets = pawn_west_attacks(our_pawns, opp_bitboard, side);
        let mut remaining_w = west_targets;
        while remaining_w != 0
            invariant
                forall|i: int| #[trigger] bit_set(remaining_w, i) ==> bit_set(west_targets, i),
                forall|mm: Move|
                    #[trigger] moves@.contains(mm) == (is_single_push(brd, side, mm)
                        || is_double_push(brd, side, mm) || is_east_capture(brd, side, mm) || (
                    is_west_capture(brd, side, mm) && !bit_set(remaining_w, mm.to as int))),
                moves@.no_duplicates(),
            decreases remaining_w,
        {
            let ghost prev_moves = moves@;
            let ghost prev_remaining = remaining_w;
            let to_bb = remaining_w.get_ls1b();
            let ghost s = u64_trailing_zeros(spec_get_ls1b(prev_remaining)) as int;
            let ghost src = s - 8 * dir + 1;
            proof {
                lemma_ls1b_extract(prev_remaining);
                assert(bit_set(west_targets, s));
                assert(bit_set(brd.pawns_of(side), src));
                assert(file_of(s) != 7);
                lemma_offset_square(src, s, -1, dir);
            }
            let source_bb = pawn_east_attacks(to_bb, our_pawns, side.flip());
            proof {
                assert forall|i: int| #[trigger] bit_set(source_bb, i) == (i == src) by {
                    assert(bit_set(source_bb, i) == (bit_set(our_pawns, i) && bit_set(
                        to_bb,
                        i - 8 * pawn_dir(side.flip()) - 1,
                    ) && file_of(i) != 0));
                }
                lemma_singleton_tz(source_bb, src);
                lemma_singleton_tz(to_bb, s);
                lemma_singleton_and_mask(to_bb, promotion_rank, s);
            }
            let from_sq = source_bb.trailing_zeros();
            let to_sq = to_bb.trailing_zeros();
            let promote = if to_bb & promotion_rank != 0 {
                Some(PieceType::Queen)
            } else {
                None
            };
            let m = Move { from: from_sq, to: to_sq, promote };
            proof {
                assert(is_west_capture(brd, side, m));
                assert(!is_single_push(brd, side, m));
                assert(!is_double_push(brd, side, m));
                assert(!is_east_capture(brd, side, m));
                assert(!prev_moves.contains(m));
                lemma_push_keeps(prev_moves, m);
            }
            moves.push(m);
            remaining_w = remaining_w.remove_ls1b();
            proof {
                assert forall|mm: Move|
                    #[trigger] moves@.contains(mm) == (is_single_push(brd, side, mm)
                        || is_double_push(brd, side, mm) || is_east_capture(brd, side, mm) || (
                    is_west_capture(brd, side, mm) && !bit_set(remaining_w, mm.to as int))) by {
                    if is_west_capture(brd, side, mm) && mm.to as int == s {
                        assert(mm.from as int == src);
                        assert(mm == m);
                    }
                }
            }
        }

        moves
    }

    /// Generate every legal-shape knight move for `side`, each exactly
    /// once: for each of the mover's knights, the precomputed attack
    /// squares that are currently empty.
    #[verifier::loop_isolation(false)]
    pub fn generate_knight_moves(&self, side: Side) -> (moves: Vec<Move>)
        requires
            self.attacks_wf(),
        ensures
            forall|m: Move| #[trigger] moves@.contains(m) == knight_move_ok(*self, side, m),
            moves@.no_duplicates(),
    {
        let ghost brd = *self;
        let opp_bitboard = self.bitboard_by_side[side.flip().val()];
        let our_bitboard = self.bitboard_by_side[side.val()];

        let empty_bitboard = !our_bitboard & !opp_bitboard;

        let our_knights = self.bitboard_by_piece[PieceType::Knight.val()]
            & self.bitboard_by_side[side.val()];

        proof {
            let w = brd.side_bb(Side::White);
            let bl = brd.side_bb(Side::Black);
            if side == Side::Black {
                assert((!bl) & (!w) == (!w) & (!bl)) by (bit_vector);
            }
            assert(empty_bitboard == brd.empty_bb());
            assert(our_knights == brd.knights_of(side));
        }

        let mut moves: Vec<Move> = Vec::new();

        let mut remaining_knights = our_knights;
        while remaining_knights != 0
            invariant
                forall|i: int|
                    #[trigger] bit_set(remaining_knights, i) ==> bit_set(our_knights, i),
                forall|mm: Move|
                    #[trigger] moves@.contains(mm) == (knight_move_ok(brd, side, mm) && !bit_set(
                        remaining_knights,
                        mm.from as int,
                    )),
                moves@.no_duplicates(),
            decreases remaining_knights,
        {
            let ghost outer_moves = moves@;
            let ghost prev_knights = remaining_knights;
            let knight_source = remaining_knights.get_ls1b();
            let ghost s = u64_trailing_zeros(spec_get_ls1b(prev_knights)) as int;
            proof {
                lemma_ls1b_extract(prev_knights);
                lemma_singleton_tz(knight_source, s);
                assert(bit_set(brd.knights_of(side), s));
            }
            let source_index = knight_source.trailing_zeros();
            remaining_knights = remaining_knights.remove_ls1b();

            // Empty squares to move the knight to.
            let knight_moves = self.attacks_by_piece[PieceType::Knight.val()][source_index
                as usize] & empty_bitboard;
            proof {
                lemma_and_bits_int(brd.knight_attacks(s), empty_bitboard);
                assert(forall|t: int|
                    #[trigger] bit_set(knight_moves, t) == (knight_reaches(s, t) && bit_set(
                        brd.empty_bb(),
                        t,
                    )));
            }

            let mut remaining_targets = knight_moves;
            while remaining_targets != 0
                invariant
                    forall|i: int|
                        #[trigger] bit_set(remaining_targets, i) ==> bit_set(knight_moves, i),
                    forall|mm: Move|
                        #[trigger] moves@.contains(mm) == (knight_move_ok(brd, side, mm) && ((
                        !bit_set(prev_knights, mm.from as int)) || (mm.from as int == s && !bit_set(
                            remaining_targets,
                            mm.to as int,
                        )))),
                    moves@.no_duplicates(),
                decreases remaining_targets,
            {
                let ghost prev_moves = moves@;
                let ghost prev_targets = remaining_targets;
                let knight_move = remaining_targets.get_ls1b();
                let ghost t = u64_trailing_zeros(spec_get_ls1b(prev_targets)) as int;
                proof {
                    lemma_ls1b_extract(prev_targets);
                    lemma_singleton_tz(knight_move, t);
                    assert(bit_set(knight_moves, t));
                }
                let m = Move { from: source_index, to: knight_move.trailing_zeros(), promote: None };
                proof {
                    assert(knight_move_ok(brd, side, m));
                    assert(!prev_moves.contains(m));
                    lemma_push_keeps(prev_moves, m);
                }
                moves.push(m);
                remaining_targets = remaining_targets.remove_ls1b();
                proof {
                    assert forall|mm: Move|
                        #[trigger] moves@.contains(mm) == (knight_move_ok(brd, side, mm) && ((
                        !bit_set(prev_knights, mm.from as int)) || (mm.from as int == s && !bit_set(
                            remaining_targets,
                            mm.to as int,
                        )))) by {
                        if knight_move_ok(brd, side, mm) && mm.from as int == s && mm.to as int
                            == t {
                            assert(mm == m);
                        }
                    }
                }
            }
            proof {
                lemma_zero_bits_int();
                assert forall|mm: Move|
                    #[trigger] moves@.contains(mm) == (knight_move_ok(brd, side, mm) && !bit_set(
                        remaining_knights,
                        mm.from as int,
                    )) by {}
            }
        }
        proof {
            lemma_zero_bits_int();
        }

        moves
    }
}

impl Default for Board {
    /// The same board `Board::new` constructs.
    fn default() -> (b: Self)
        ensures
            b.attacks_wf(),
            b.bitboard_by_side[0] == 0u64,
            b.bitboard_by_side[1] == 0u64,
            forall|p: int| 0 <= p < 6 ==> b.bitboard_by_piece[p] == 0u64,
    {
        Self::new()
    }
}

/// Returns a bitboard of single pawn push destinations for the given side.
///
/// # Arguments
///
/// * `pawns` - The bitboard of pawns belonging to the given side.
/// * `empty` - The bitboard of all empty squares on the board.
/// * `side` - The side to push pawns for (should match the side of the pawns in `pawns`).
pub fn single_pawn_push(pawns: Bitboard, empty: Bitboard, side: Side) -> (r: Bitboard)
    ensures
        forall|t: int|
            #[trigger] bit_set(r, t) == (bit_set(empty, t) && bit_set(
                pawns,
                t - 8 * pawn_dir(side),
            )),
{
    match side {
        Side::White => {
            let shifted = bb_shift(pawns, Direction::N);
            proof {
                lemma_shift_semantics(pawns, Direction::N);
                lemma_and_bits_int(shifted, empty);
            }
            shifted & empty
        },
        Side::Black => {
            let shifted = bb_shift(pawns, Direction::S);
            proof {
                lemma_shift_semantics(pawns, Direction::S);
                lemma_and_bits_int(shifted, empty);
            }
            shifted & empty
        },
    }
}

/// Returns a bitboard of double pawn push destinations for the given side.
///
/// # Arguments
///
/// * `pawns` - The bitboard of pawns belonging to the given side.
/// * `empty` - The bitboard of all empty squares on the board.
/// * `side` - The side to push pawns for (should match the side of the pawns in `pawns`).
pub fn double_pawn_push(pawns: Bitboard, empty: Bitboard, side: Side) -> (r: Bitboard)
    ensures
        forall|t: int|
            #[trigger] bit_set(r, t) == (bit_set(empty, t) && bit_set(
                empty,
                t - 8 * pawn_dir(side),
            ) && bit_set(pawns, t - 16 * pawn_dir(side)) && rank_of(t - 16 * pawn_dir(side))
                == pawn_start_rank(side)),
{
    proof {
        lemma_rank_masks_int();
    }
    match side {
        Side::White => {
            let starters = pawns & RANK_2;
            let first = single_pawn_push(starters, empty, side);
            let shifted = bb_shift(first, Direction::N);
            proof {
                lemma_and_bits_int(pawns, RANK_2);
                lemma_shift_semantics(first, Direction::N);
                lemma_and_bits_int(shifted, empty);
            }
            shifted & empty
        },
        Side::Black => {
            let starters = pawns & RANK_7;
            let first = single_pawn_push(starters, empty, side);
            let shifted = bb_shift(first, Direction::S);
            proof {
                lemma_and_bits_int(pawns, RANK_7);
                lemma_shift_semantics(first, Direction::S);
                lemma_and_bits_int(shifted, empty);
            }
            shifted & empty
        },
    }
}

/// Returns a bitboard of the possible pawn East capture targets for the given side.
///
/// # Arguments
///
/// * `pawns` - The bitboard of pawns belonging to the given side.
/// * `enemy_pieces` - The bitboard of all pieces belonging to the other side.
/// * `side` - The side to generate captures for (should match the side of the pawns in `pawns`).
pub fn pawn_east_attacks(pawns: Bitboard, enemy_pieces: Bitboard, side: Side) -> (r: Bitboard)
    ensures
        forall|t: int|
            #[trigger] bit_set(r, t) == (bit_set(enemy_pieces, t) && bit_set(
                pawns,
                t - 8 * pawn_dir(side) - 1,
            ) && file_of(t) != 0),
{
    match side {
        Side::White => {
            let shifted = bb_shift(pawns, Direction::NE);
            proof {
                lemma_shift_semantics(pawns, Direction::NE);
                lemma_and_bits_int(shifted, enemy_pieces);
            }
            shifted & enemy_pieces
        },
        Side::Black => {
            let shifted = bb_shift(pawns, Direction::SE);
            proof {
                lemma_shift_semantics(pawns, Direction::SE);
                lemma_and_bits_int(shifted, enemy_pieces);
            }
            shifted & enemy_pieces
        },
    }
}

/// Returns a bitboard of the possible pawn West capture targets for the given side.
///
/// # Arguments
///
/// * `pawns` - The bitboard of pawns belonging to the given side.
/// * `enemy_pieces` - The bitboard of all pieces belonging to the other side.
/// * `side` - The side to generate captures for (should match the side of the pawns in `pawns`).
pub fn pawn_west_attacks(pawns: Bitboard, enemy_pieces: Bitboard, side: Side) -> (r: Bitboard)
    ensures
        forall|t: int|
            #[trigger] bit_set(r, t) == (bit_set(enemy_pieces, t) && bit_set(
                pawns,
                t - 8 * pawn_dir(side) + 1,
            ) && file_of(t) != 7),
{
    match side {
        Side::White => {
            let shifted = bb_shift(pawns, Direction::NW);
            proof {
                lemma_shift_semantics(pawns, Direction::NW);
                lemma_and_bits_int(shifted, enemy_pieces);
            }
            shifted & enemy_pieces
        },
        Side::Black => {
            let shifted = bb_shift(pawns, Direction::SW);
            proof {
                lemma_shift_semantics(pawns, Direction::SW);
                lemma_and_bits_int(shifted, enemy_pieces);
            }
            shifted & enemy_pieces
        },
    }
}

/// A board whose attack table equals that of a well-formed one has a
/// well-formed attack table itself, whatever its occupancy.
pub proof fn lemma_attacks_wf_same(a: Board, b: Board)
    requires
        a.attacks_wf(),
        b.attacks_by_piece == a.attacks_by_piece,
    ensures
        b.attacks_wf(),
{
    assert forall|s: int, t: int|
        0 <= s < 64 implies (#[trigger] bit_set(b.knight_attacks(s), t) == knight_reaches(
        s,
        t,
    )) by {
        assert(b.knight_attacks(s) == a.knight_attacks(s));
        assert(bit_set(a.knight_attacks(s), t) == knight_reaches(s, t));
    }
    assert forall|p: int, s: int|
        0 <= p < 6 && p != PieceType::Knight.val() && 0 <= s < 64 implies b.attacks_by_piece[p][s]
        == 0u64 by {
        assert(a.attacks_by_piece[p][s] == 0u64);
    }
}

/// Double-push gating: when the square a pawn would push through is
/// occupied by any piece, no double push from that pawn's square exists,
/// whatever the two-ranks-ahead square holds.
pub proof fn lemma_double_push_gating(b: Board, side: Side, from: int)
    requires
        !bit_set(b.empty_bb(), from + 8 * pawn_dir(side)),
    ensures
        forall|m: Move| m.from == from ==> !(#[trigger] is_double_push(b, side, m)),
{
}

/// Promotion flagging: a generated pawn move promotes to a queen exactly
/// when its destination lies on the mover's back rank, and promotes to
/// nothing otherwise.  (A double push can never reach the back rank.)
pub proof fn lemma_promotion_flagging(b: Board, side: Side, m: Move)
    requires
        pawn_move_ok(b, side, m),
    ensures
        rank_of(m.to as int) == back_rank(side) ==> m.promote == Some(PieceType::Queen),
        rank_of(m.to as int) != back_rank(side) ==> m.promote is None,
{
    if is_double_push(b, side, m) {
        let from = m.from as int;
        let to = m.to as int;
        lemma_offset_square_fwd(from, to, 0, 2 * pawn_dir(side));
    }
}

/// Capture soundness: a generated pawn capture always lands on a square
/// held by an opposing piece; no capture exists without its target.
pub proof fn lemma_capture_has_target(b: Board, side: Side, m: Move)
    requires
        is_east_capture(b, side, m) || is_west_capture(b, side, m),
    ensures
        bit_set(b.side_bb(side.flip()), m.to as int),
{
}

} // verus!
