//! Bitboard primitives: 64-bit square sets.
//!
//! A bitboard is a `u64` in which bit `i` stands for square `i` of a chess
//! board, with `i = rank * 8 + file`, both 0-indexed from the a1 corner
//! (a1 = 0, h1 = 7, a8 = 56, h8 = 63).  This module provides the bit-level
//! set algebra: least-significant-bit extraction and removal, iteration over
//! the set squares in ascending order, and directional shifts that mask out
//! squares which would wrap around the left or right edge of the board.

use vstd::prelude::*;
use vstd::std_specs::bits::u64_trailing_zeros;

verus! {

/// A set of board squares: bit `i` set means square `i` is a member.
pub type Bitboard = u64;

/// True when bit `i` of `b` is set, i.e. square `i` is in the set `b`.
pub open spec fn bit_set(b: Bitboard, i: int) -> bool {
    0 <= i < 64 && (b >> (i as u64)) & 1u64 == 1u64
}

/// File (0-based, file a = 0) of square index `s`.
pub open spec fn file_of(s: int) -> int {
    s % 8
}

/// Rank (0-based, rank 1 = 0) of square index `s`.
pub open spec fn rank_of(s: int) -> int {
    s / 8
}

/// Stepping back from square `t` by `(df, dr)` lands on square `s`: when
/// the step stays inside the file range, the source's file and rank are
/// the target's shifted back.
pub proof fn lemma_offset_square(s: int, t: int, df: int, dr: int)
    requires
        0 <= s < 64,
        0 <= t < 64,
        s == t - 8 * dr - df,
        0 <= t % 8 - df < 8,
    ensures
        file_of(s) == file_of(t) - df,
        rank_of(s) == rank_of(t) - dr,
{
    vstd::arithmetic::div_mod::lemma_fundamental_div_mod(t, 8);
    vstd::arithmetic::div_mod::lemma_fundamental_div_mod_converse(s, 8, t / 8 - dr, t % 8 - df);
}

/// Stepping forward from square `s` by `(df, dr)` lands on square `t`:
/// when the step stays inside the file range, the target's file and rank
/// are the source's shifted forward.
pub proof fn lemma_offset_square_fwd(s: int, t: int, df: int, dr: int)
    requires
        0 <= s < 64,
        0 <= t < 64,
        t == s + 8 * dr + df,
        0 <= s % 8 + df < 8,
    ensures
        file_of(t) == file_of(s) + df,
        rank_of(t) == rank_of(s) + dr,
{
    vstd::arithmetic::div_mod::lemma_fundamental_div_mod(s, 8);
    vstd::arithmetic::div_mod::lemma_fundamental_div_mod_converse(t, 8, s / 8 + dr, s % 8 + df);
}

pub const RANK_1: Bitboard = 0x00000000000000FF;

pub const RANK_2: Bitboard = 0x000000000000FF00;

pub const RANK_3: Bitboard = 0x0000000000FF0000;

pub const RANK_4: Bitboard = 0x00000000FF000000;

pub const RANK_5: Bitboard = 0x000000FF00000000;

pub const RANK_6: Bitboard = 0x0000FF0000000000;

pub const RANK_7: Bitboard = 0x00FF000000000000;

pub const RANK_8: Bitboard = 0xFF00000000000000;

pub const FILE_A: Bitboard = 0x0101010101010101;

pub const FILE_B: Bitboard = 0x0202020202020202;

pub const FILE_C: Bitboard = 0x0404040404040404;

pub const FILE_D: Bitboard = 0x0808080808080808;

pub const FILE_E: Bitboard = 0x1010101010101010;

pub const FILE_F: Bitboard = 0x2020202020202020;

pub const FILE_G: Bitboard = 0x4040404040404040;

pub const FILE_H: Bitboard = 0x8080808080808080;

/// Left-shifting moves every member up by `k` squares; members pushed past
/// bit 63 fall off.
pub proof fn lemma_shl_bits(b: Bitboard, k: u64)
    by (bit_vector)
    requires
        k < 64,
    ensures
        forall|i: u64|
            i < 64 ==> (#[trigger] bit_set(b << k, i as int) == (i >= k && bit_set(
                b,
                i as int - k,
            ))),
{
}

/// Right-shifting moves every member down by `k` squares; members below
/// bit `k` fall off.
pub proof fn lemma_shr_bits(b: Bitboard, k: u64)
    by (bit_vector)
    requires
        k < 64,
    ensures
        forall|i: u64|
            i < 64 ==> (#[trigger] bit_set(b >> k, i as int) == (i + k < 64 && bit_set(
                b,
                i + k,
            ))),
{
}

/// Bitwise and intersects two square sets.
pub proof fn lemma_and_bits(a: Bitboard, b: Bitboard)
    by (bit_vector)
    ensures
        forall|i: u64|
            i < 64 ==> (#[trigger] bit_set(a & b, i as int) == (bit_set(a, i as int) && bit_set(
                b,
                i as int,
            ))),
{
}

/// Bitwise or unites two square sets.
pub proof fn lemma_or_bits(a: Bitboard, b: Bitboard)
    by (bit_vector)
    ensures
        forall|i: u64|
            i < 64 ==> (#[trigger] bit_set(a | b, i as int) == (bit_set(a, i as int) || bit_set(
                b,
                i as int,
            ))),
{
}

/// Bitwise not complements a square set (within the 64 squares).
pub proof fn lemma_not_bits(a: Bitboard)
    by (bit_vector)
    ensures
        forall|i: u64| i < 64 ==> (#[trigger] bit_set(!a, i as int) == !bit_set(a, i as int)),
{
}

/// `1 << k` is the set holding exactly square `k`.
pub proof fn lemma_one_shl(k: u64)
    by (bit_vector)
    requires
        k < 64,
    ensures
        forall|i: u64| i < 64 ==> (#[trigger] bit_set(1u64 << k, i as int) == (i == k)),
{
}

/// The file masks pick out a square's file (`i % 8`), the rank masks its
/// rank (`i / 8`).
pub proof fn lemma_mask_bits()
    by (bit_vector)
    ensures
        forall|i: u64| i < 64 ==> (#[trigger] bit_set(FILE_A, i as int) == (i % 8 == 0)),
        forall|i: u64| i < 64 ==> (#[trigger] bit_set(FILE_B, i as int) == (i % 8 == 1)),
        forall|i: u64| i < 64 ==> (#[trigger] bit_set(FILE_G, i as int) == (i % 8 == 6)),
        forall|i: u64| i < 64 ==> (#[trigger] bit_set(FILE_H, i as int) == (i % 8 == 7)),
        forall|i: u64| i < 64 ==> (#[trigger] bit_set(RANK_1, i as int) == (i / 8 == 0)),
        forall|i: u64| i < 64 ==> (#[trigger] bit_set(RANK_2, i as int) == (i / 8 == 1)),
        forall|i: u64| i < 64 ==> (#[trigger] bit_set(RANK_7, i as int) == (i / 8 == 6)),
        forall|i: u64| i < 64 ==> (#[trigger] bit_set(RANK_8, i as int) == (i / 8 == 7)),
{
}

/// `lemma_and_bits`, quantified over mathematical square indices.
pub proof fn lemma_and_bits_int(a: Bitboard, b: Bitboard)
    ensures
        forall|t: int| #[trigger] bit_set(a & b, t) == (bit_set(a, t) && bit_set(b, t)),
{
    lemma_and_bits(a, b);
    assert forall|t: int| #[trigger] bit_set(a & b, t) == (bit_set(a, t) && bit_set(b, t)) by {
        if 0 <= t < 64 {
            let tu = t as u64;
            assert(bit_set(a & b, tu as int) == (bit_set(a, tu as int) && bit_set(b, tu as int)));
        }
    }
}

/// `lemma_or_bits`, quantified over mathematical square indices.
pub proof fn lemma_or_bits_int(a: Bitboard, b: Bitboard)
    ensures
        forall|t: int| #[trigger] bit_set(a | b, t) == (bit_set(a, t) || bit_set(b, t)),
{
    lemma_or_bits(a, b);
    assert forall|t: int| #[trigger] bit_set(a | b, t) == (bit_set(a, t) || bit_set(b, t)) by {
        if 0 <= t < 64 {
            let tu = t as u64;
            assert(bit_set(a | b, tu as int) == (bit_set(a, tu as int) || bit_set(b, tu as int)));
        }
    }
}

/// `lemma_shl_bits`, quantified over mathematical square indices.
pub proof fn lemma_shl_bits_int(b: Bitboard, k: u64)
    requires
        k < 64,
    ensures
        forall|t: int|
            #[trigger] bit_set(b << k, t) == (0 <= t < 64 && t >= k && bit_set(b, t - k)),
{
    lemma_shl_bits(b, k);
    assert forall|t: int|
        #[trigger] bit_set(b << k, t) == (0 <= t < 64 && t >= k && bit_set(b, t - k)) by {
        if 0 <= t < 64 {
            let tu = t as u64;
            assert(bit_set(b << k, tu as int) == (tu >= k && bit_set(b, tu as int - k)));
        }
    }
}

/// `lemma_shr_bits`, quantified over mathematical square indices.
pub proof fn lemma_shr_bits_int(b: Bitboard, k: u64)
    requires
        k < 64,
    ensures
        forall|t: int| #[trigger] bit_set(b >> k, t) == (0 <= t < 64 && bit_set(b, t + k)),
{
    lemma_shr_bits(b, k);
    assert forall|t: int| #[trigger] bit_set(b >> k, t) == (0 <= t < 64 && bit_set(b, t + k)) by {
        if 0 <= t < 64 {
            let tu = t as u64;
            assert(bit_set(b >> k, tu as int) == (tu + k < 64 && bit_set(b, tu + k)));
        }
    }
}

/// `lemma_not_bits`, quantified over mathematical square indices.
pub proof fn lemma_not_bits_int(a: Bitboard)
    ensures
        forall|t: int| #[trigger] bit_set(!a, t) == (0 <= t < 64 && !bit_set(a, t)),
{
    lemma_not_bits(a);
    assert forall|t: int| #[trigger] bit_set(!a, t) == (0 <= t < 64 && !bit_set(a, t)) by {
        if 0 <= t < 64 {
            let tu = t as u64;
            assert(bit_set(!a, tu as int) == !bit_set(a, tu as int));
        }
    }
}

/// The empty board has no members.
pub proof fn lemma_zero_bits_int()
    ensures
        forall|t: int| !(#[trigger] bit_set(0u64, t)),
{
    assert(forall|i: u64| i < 64 ==> !bit_set(0u64, i as int)) by (bit_vector);
    assert forall|t: int| !bit_set(0u64, t) by {
        if 0 <= t < 64 {
            let tu = t as u64;
            assert(!bit_set(0u64, tu as int));
        }
    }
}

/// `lemma_one_shl`, quantified over mathematical square indices.
pub proof fn lemma_one_shl_int(k: u64)
    requires
        k < 64,
    ensures
        forall|t: int| #[trigger] bit_set(1u64 << k, t) == (t == k),
{
    lemma_one_shl(k);
    assert forall|t: int| #[trigger] bit_set(1u64 << k, t) == (t == k) by {
        if 0 <= t < 64 {
            let tu = t as u64;
            assert(bit_set(1u64 << k, tu as int) == (tu == k));
        }
    }
}

/// The rank masks pick out a square's rank, at mathematical indices.
pub proof fn lemma_rank_masks_int()
    ensures
        forall|t: int| #[trigger] bit_set(RANK_1, t) == (0 <= t < 64 && t / 8 == 0),
        forall|t: int| #[trigger] bit_set(RANK_2, t) == (0 <= t < 64 && t / 8 == 1),
        forall|t: int| #[trigger] bit_set(RANK_7, t) == (0 <= t < 64 && t / 8 == 6),
        forall|t: int| #[trigger] bit_set(RANK_8, t) == (0 <= t < 64 && t / 8 == 7),
{
    lemma_mask_bits();
    assert forall|t: int| #[trigger] bit_set(RANK_1, t) == (0 <= t < 64 && t / 8 == 0) by {
        if 0 <= t < 64 {
            let tu = t as u64;
            assert(bit_set(RANK_1, tu as int) == (tu / 8 == 0));
        }
    }
    assert forall|t: int| #[trigger] bit_set(RANK_2, t) == (0 <= t < 64 && t / 8 == 1) by {
        if 0 <= t < 64 {
            let tu = t as u64;
            assert(bit_set(RANK_2, tu as int) == (tu / 8 == 1));
        }
    }
    assert forall|t: int| #[trigger] bit_set(RANK_7, t) == (0 <= t < 64 && t / 8 == 6) by {
        if 0 <= t < 64 {
            let tu = t as u64;
            assert(bit_set(RANK_7, tu as int) == (tu / 8 == 6));
        }
    }
    assert forall|t: int| #[trigger] bit_set(RANK_8, t) == (0 <= t < 64 && t / 8 == 7) by {
        if 0 <= t < 64 {
            let tu = t as u64;
            assert(bit_set(RANK_8, tu as int) == (tu / 8 == 7));
        }
    }
}

/// The lowest set bit of `b`, kept alone (0 when `b` is 0).
pub open spec fn spec_get_ls1b(b: Bitboard) -> Bitboard {
    if b == 0 {
        0u64
    } else {
        b & ((!b + 1) as u64)
    }
}

/// `b` with its lowest set bit cleared (0 when `b` is 0).
pub open spec fn spec_remove_ls1b(b: Bitboard) -> Bitboard {
    if b == 0 {
        0u64
    } else {
        b & ((b - 1) as u64)
    }
}

/// True when exactly one bit of `b` is set.
pub open spec fn single_bit(b: Bitboard) -> bool {
    b != 0 && b & ((b - 1) as u64) == 0
}

/// How `spec_get_ls1b` and `spec_remove_ls1b` split a bitboard: a non-zero
/// board splits into its single lowest member and the strictly higher rest.
pub proof fn lemma_ls1b_bits(b: Bitboard)
    by (bit_vector)
    ensures
        spec_get_ls1b(b) | spec_remove_ls1b(b) == b,
        spec_get_ls1b(b) & spec_remove_ls1b(b) == 0,
        b != 0 ==> single_bit(spec_get_ls1b(b)),
        b != 0 ==> spec_remove_ls1b(b) < b,
        forall|i: u64|
            i < 64 ==> (#[trigger] bit_set(b, i as int) == (bit_set(spec_get_ls1b(b), i as int)
                || bit_set(spec_remove_ls1b(b), i as int))),
        forall|i: u64, j: u64|
            i < 64 && j < 64 && #[trigger] bit_set(spec_get_ls1b(b), i as int)
                && #[trigger] bit_set(spec_remove_ls1b(b), j as int) ==> i < j,
        forall|i: u64, j: u64|
            i < 64 && j < 64 && #[trigger] bit_set(spec_get_ls1b(b), i as int)
                && #[trigger] bit_set(spec_get_ls1b(b), j as int) ==> i == j,
{
}

/// `lemma_ls1b_bits`, quantified over mathematical square indices: the
/// extracted bit and the rest partition `b`, the extracted bit is unique,
/// and it sits strictly below every bit of the rest.
pub proof fn lemma_ls1b_bits_int(b: Bitboard)
    ensures
        forall|i: int|
            #[trigger] bit_set(b, i) == (bit_set(spec_get_ls1b(b), i) || bit_set(
                spec_remove_ls1b(b),
                i,
            )),
        forall|i: int, j: int|
            #[trigger] bit_set(spec_get_ls1b(b), i) && #[trigger] bit_set(spec_remove_ls1b(b), j)
                ==> i < j,
        forall|i: int, j: int|
            #[trigger] bit_set(spec_get_ls1b(b), i) && #[trigger] bit_set(spec_get_ls1b(b), j)
                ==> i == j,
{
    lemma_ls1b_bits(b);
    assert forall|i: int|
        #[trigger] bit_set(b, i) == (bit_set(spec_get_ls1b(b), i) || bit_set(
            spec_remove_ls1b(b),
            i,
        )) by {
        if 0 <= i < 64 {
            let iu = i as u64;
            assert(bit_set(b, iu as int) == (bit_set(spec_get_ls1b(b), iu as int) || bit_set(
                spec_remove_ls1b(b),
                iu as int,
            )));
        }
    }
    assert forall|i: int, j: int|
        #[trigger] bit_set(spec_get_ls1b(b), i) && #[trigger] bit_set(
            spec_remove_ls1b(b),
            j,
        ) implies i < j by {
        let iu = i as u64;
        let ju = j as u64;
        assert(bit_set(spec_get_ls1b(b), iu as int) && bit_set(spec_remove_ls1b(b), ju as int)
            ==> iu < ju);
    }
    assert forall|i: int, j: int|
        #[trigger] bit_set(spec_get_ls1b(b), i) && #[trigger] bit_set(
            spec_get_ls1b(b),
            j,
        ) implies i == j by {
        let iu = i as u64;
        let ju = j as u64;
        assert(bit_set(spec_get_ls1b(b), iu as int) && bit_set(spec_get_ls1b(b), ju as int)
            ==> iu == ju);
    }
}

/// Drawing the lowest square out of a non-empty board: the extracted
/// board holds exactly the square `trailing_zeros` names, the rest holds
/// exactly the other members, and every member lies at or above the
/// extracted square.
pub proof fn lemma_ls1b_extract(b: Bitboard)
    requires
        b != 0,
    ensures
        ({
            let g = spec_get_ls1b(b);
            let s = u64_trailing_zeros(g) as int;
            &&& g != 0
            &&& 0 <= s < 64
            &&& forall|i: int| #[trigger] bit_set(g, i) == (i == s)
            &&& bit_set(b, s)
            &&& forall|i: int|
                #[trigger] bit_set(spec_remove_ls1b(b), i) == (bit_set(b, i) && i != s)
            &&& forall|i: int| #[trigger] bit_set(b, i) ==> i >= s
            &&& spec_remove_ls1b(b) < b
        }),
{
    lemma_ls1b_laws(b);
    lemma_ls1b_bits(b);
    lemma_ls1b_bits_int(b);
    let g = spec_get_ls1b(b);
    let s = u64_trailing_zeros(g) as int;
    lemma_trailing_zeros(g);
    assert(bit_set(g, s));
    assert forall|i: int| #[trigger] bit_set(g, i) == (i == s) by {
        if bit_set(g, i) {
            assert(bit_set(g, s));
        }
    }
    assert forall|i: int|
        #[trigger] bit_set(spec_remove_ls1b(b), i) == (bit_set(b, i) && i != s) by {
        if bit_set(spec_remove_ls1b(b), i) {
            assert(bit_set(g, s));
            assert(s < i);
        } else {
            if bit_set(b, i) && i != s {
                assert(bit_set(g, i) || bit_set(spec_remove_ls1b(b), i));
            }
        }
    }
}

/// For a non-empty board, `trailing_zeros` names its lowest member: that
/// square is set and every lower square is clear.
pub proof fn lemma_trailing_zeros(b: Bitboard)
    requires
        b != 0,
    ensures
        u64_trailing_zeros(b) < 64,
        bit_set(b, u64_trailing_zeros(b) as int),
        forall|j: int| 0 <= j < u64_trailing_zeros(b) ==> !bit_set(b, j),
{
    vstd::std_specs::bits::axiom_u64_trailing_zeros(b);
    let t = u64_trailing_zeros(b);
    assert(bit_set(b, t as int));
    assert forall|j: int| 0 <= j < t implies !bit_set(b, j) by {
        let ju = j as u64;
        assert((b >> ju) & 1u64 == 0u64);
    }
}

/// The single-bit boards drawn from `b` by repeated extract-then-remove,
/// lowest first.
pub open spec fn iter_seq(b: Bitboard) -> Seq<Bitboard>
    decreases b,
    via iter_seq_decreases
{
    if b == 0 {
        Seq::empty()
    } else {
        seq![spec_get_ls1b(b)] + iter_seq(spec_remove_ls1b(b))
    }
}

#[via_fn]
proof fn iter_seq_decreases(b: Bitboard) {
    lemma_ls1b_bits(b);
}

/// Least-significant-bit laws: on a non-zero board, extraction keeps
/// exactly one bit and that bit is in the board; extraction and removal
/// partition the board; both give 0 on the empty board.
pub proof fn lemma_ls1b_laws(b: Bitboard)
    by (bit_vector)
    ensures
        b != 0 ==> single_bit(spec_get_ls1b(b)),
        b != 0 ==> b & spec_get_ls1b(b) == spec_get_ls1b(b),
        spec_remove_ls1b(b) | spec_get_ls1b(b) == b,
        spec_remove_ls1b(b) & spec_get_ls1b(b) == 0,
        b == 0 ==> spec_get_ls1b(b) == 0,
        b == 0 ==> spec_remove_ls1b(b) == 0,
{
}

/// Iteration completeness: the square-iteration sequence over `b` consists
/// of single-bit boards, visits exactly the set squares of `b`, each once,
/// in ascending square order, and is empty when `b` is empty.
pub proof fn lemma_iteration_complete(b: Bitboard)
    ensures
        b == 0 ==> iter_seq(b).len() == 0,
        forall|k: int| 0 <= k < iter_seq(b).len() ==> single_bit(#[trigger] iter_seq(b)[k]),
        forall|k: int, i: int|
            0 <= k < iter_seq(b).len() && #[trigger] bit_set(iter_seq(b)[k], i) ==> bit_set(b, i),
        forall|i: int|
            #[trigger] bit_set(b, i) ==> exists|k: int|
                0 <= k < iter_seq(b).len() && bit_set(iter_seq(b)[k], i),
        forall|k1: int, k2: int, i1: int, i2: int|
            0 <= k1 < k2 < iter_seq(b).len() && #[trigger] bit_set(iter_seq(b)[k1], i1)
                && #[trigger] bit_set(iter_seq(b)[k2], i2) ==> i1 < i2,
    decreases b,
{
    lemma_ls1b_bits(b);
    if b != 0 {
        let g = spec_get_ls1b(b);
        let rest = spec_remove_ls1b(b);
        lemma_iteration_complete(rest);
        assert(iter_seq(b) == seq![g] + iter_seq(rest));
        assert(iter_seq(b)[0] == g);
        assert(forall|k: int|
            1 <= k < iter_seq(b).len() ==> #[trigger] iter_seq(b)[k] == iter_seq(rest)[k - 1]);
        assert forall|i: int| #[trigger] bit_set(b, i) implies exists|k: int|
            0 <= k < iter_seq(b).len() && bit_set(iter_seq(b)[k], i) by {
            if bit_set(g, i) {
                assert(bit_set(iter_seq(b)[0], i));
            } else {
                assert(bit_set(rest, i));
                let k0 = choose|k0: int|
                    0 <= k0 < iter_seq(rest).len() && bit_set(iter_seq(rest)[k0], i);
                assert(bit_set(iter_seq(b)[k0 + 1], i));
            }
        }
    }
}

/// A direction a piece can move in: the eight cardinal and diagonal steps,
/// and the eight knight leaps.
pub enum Direction {
    N,
    E,
    S,
    W,
    NE,
    SE,
    SW,
    NW,
    NNE,
    NEE,
    SEE,
    SSE,
    SSW,
    SWW,
    NWW,
    NNW,
}

impl Direction {
    /// Change in file (toward file h positive) of one step.
    pub open spec fn file_delta(self) -> int {
        match self {
            Direction::N => 0,
            Direction::E => 1,
            Direction::S => 0,
            Direction::W => -1,
            Direction::NE => 1,
            Direction::SE => 1,
            Direction::SW => -1,
            Direction::NW => -1,
            Direction::NNE => 1,
            Direction::NEE => 2,
            Direction::SEE => 2,
            Direction::SSE => 1,
            Direction::SSW => -1,
            Direction::SWW => -2,
            Direction::NWW => -2,
            Direction::NNW => -1,
        }
    }

    /// Change in rank (toward rank 8 positive) of one step.
    pub open spec fn rank_delta(self) -> int {
        match self {
            Direction::N => 1,
            Direction::E => 0,
            Direction::S => -1,
            Direction::W => 0,
            Direction::NE => 1,
            Direction::SE => -1,
            Direction::SW => -1,
            Direction::NW => 1,
            Direction::NNE => 2,
            Direction::NEE => 1,
            Direction::SEE => -1,
            Direction::SSE => -2,
            Direction::SSW => -2,
            Direction::SWW => -1,
            Direction::NWW => 1,
            Direction::NNW => 2,
        }
    }

    /// Change in square index of one step.
    pub open spec fn offset(self) -> int {
        8 * self.rank_delta() + self.file_delta()
    }
}

/// The shifted board, as a spec-level value: the formulas the executable
/// shift computes.
pub open spec fn spec_shift(b: Bitboard, d: Direction) -> Bitboard {
    match d {
        Direction::N => b << 8,
        Direction::E => (b << 1) & !FILE_A,
        Direction::S => b >> 8,
        Direction::W => (b >> 1) & !FILE_H,
        Direction::NE => (b << 9) & !FILE_A,
        Direction::SE => (b >> 7) & !FILE_A,
        Direction::SW => (b >> 9) & !FILE_H,
        Direction::NW => (b << 7) & !FILE_H,
        Direction::NNE => (b << 17) & !FILE_A,
        Direction::NEE => (b << 10) & !(FILE_A | FILE_B),
        Direction::SEE => (b >> 6) & !(FILE_A | FILE_B),
        Direction::SSE => (b >> 15) & !FILE_A,
        Direction::SSW => (b >> 17) & !FILE_H,
        Direction::SWW => (b >> 10) & !(FILE_G | FILE_H),
        Direction::NWW => (b << 6) & !(FILE_G | FILE_H),
        Direction::NNW => (b << 15) & !FILE_H,
    }
}

/// Shift every member of `bitboard` one step in `direction`.  Members
/// pushed past the top or bottom of the board fall off by 64-bit
/// truncation; members that would wrap around the left or right edge are
/// masked away by file.
pub fn bb_shift(bitboard: Bitboard, direction: Direction) -> (r: Bitboard)
    ensures
        r == spec_shift(bitboard, direction),
{
    match direction {
        // Cardinal moves.
        Direction::N => bitboard << 8,
        Direction::E => (bitboard << 1) & !FILE_A,
        Direction::S => bitboard >> 8,
        Direction::W => (bitboard >> 1) & !FILE_H,
        // Diagonal moves.
        Direction::NE => (bitboard << 9) & !FILE_A,
        Direction::SE => (bitboard >> 7) & !FILE_A,
        Direction::SW => (bitboard >> 9) & !FILE_H,
        Direction::NW => (bitboard << 7) & !FILE_H,
        // Knight moves.
        Direction::NNE => (bitboard << 17) & !FILE_A,
        Direction::NEE => (bitboard << 10) & !(FILE_A | FILE_B),
        Direction::SEE => (bitboard >> 6) & !(FILE_A | FILE_B),
        Direction::SSE => (bitboard >> 15) & !FILE_A,
        Direction::SSW => (bitboard >> 17) & !FILE_H,
        Direction::SWW => (bitboard >> 10) & !(FILE_G | FILE_H),
        Direction::NWW => (bitboard << 6) & !(FILE_G | FILE_H),
        Direction::NNW => (bitboard << 15) & !FILE_H,
    }
}

proof fn lemma_masked_shl(b: Bitboard, k: u64, m: Bitboard, df: int)
    requires
        k < 64,
        forall|i: u64| i < 64 ==> (#[trigger] bit_set(m, i as int) == (0 <= (i as int) % 8 - df < 8)),
    ensures
        forall|t: int|
            #[trigger] bit_set((b << k) & m, t) <==> (0 <= t < 64 && 0 <= t % 8 - df < 8 && bit_set(
                b,
                t - k,
            )),
{
    lemma_shl_bits(b, k);
    lemma_and_bits(b << k, m);
    assert forall|t: int|
        #[trigger] bit_set((b << k) & m, t) <==> (0 <= t < 64 && 0 <= t % 8 - df < 8 && bit_set(
            b,
            t - k,
        )) by {
        if 0 <= t < 64 {
            let tu = t as u64;
            assert(bit_set((b << k) & m, tu as int) == (bit_set(b << k, tu as int) && bit_set(
                m,
                tu as int,
            )));
            assert(bit_set(b << k, tu as int) == (tu >= k && bit_set(b, tu as int - k)));
            assert(bit_set(m, tu as int) == (0 <= (tu as int) % 8 - df < 8));
        }
    }
}

proof fn lemma_masked_shr(b: Bitboard, k: u64, m: Bitboard, df: int)
    requires
        k < 64,
        forall|i: u64| i < 64 ==> (#[trigger] bit_set(m, i as int) == (0 <= (i as int) % 8 - df < 8)),
    ensures
        forall|t: int|
            #[trigger] bit_set((b >> k) & m, t) <==> (0 <= t < 64 && 0 <= t % 8 - df < 8 && bit_set(
                b,
                t + k,
            )),
{
    lemma_shr_bits(b, k);
    lemma_and_bits(b >> k, m);
    assert forall|t: int|
        #[trigger] bit_set((b >> k) & m, t) <==> (0 <= t < 64 && 0 <= t % 8 - df < 8 && bit_set(
            b,
            t + k,
        )) by {
        if 0 <= t < 64 {
            let tu = t as u64;
            assert(bit_set((b >> k) & m, tu as int) == (bit_set(b >> k, tu as int) && bit_set(
                m,
                tu as int,
            )));
            assert(bit_set(b >> k, tu as int) == (tu + k < 64 && bit_set(b, tu + k)));
            assert(bit_set(m, tu as int) == (0 <= (tu as int) % 8 - df < 8));
        }
    }
}

/// What a directional shift holds: square `t` is in the shifted board
/// exactly when `t` is on the board, stepping back by the direction does
/// not cross the left or right edge, and the square stepped back to is a
/// member of `b`.  In particular no member ever wraps from one side edge
/// of the board to a square near the other.
pub proof fn lemma_shift_semantics(b: Bitboard, d: Direction)
    ensures
        forall|t: int|
            #[trigger] bit_set(spec_shift(b, d), t) <==> (0 <= t < 64 && 0 <= t % 8
                - d.file_delta() < 8 && bit_set(b, t - d.offset())),
{
    lemma_mask_bits();
    lemma_not_bits(FILE_A);
    lemma_not_bits(FILE_H);
    lemma_or_bits(FILE_A, FILE_B);
    lemma_or_bits(FILE_G, FILE_H);
    lemma_not_bits(FILE_A | FILE_B);
    lemma_not_bits(FILE_G | FILE_H);
    assert forall|i: u64| i < 64 implies (#[trigger] bit_set(!FILE_A, i as int) == (0 <= (
    i as int) % 8 - 1 < 8)) by {
        assert(bit_set(!FILE_A, i as int) == !bit_set(FILE_A, i as int));
        assert(bit_set(FILE_A, i as int) == (i % 8 == 0));
    }
    assert forall|i: u64| i < 64 implies (#[trigger] bit_set(!FILE_H, i as int) == (0 <= (
    i as int) % 8 - (-1) < 8)) by {
        assert(bit_set(!FILE_H, i as int) == !bit_set(FILE_H, i as int));
        assert(bit_set(FILE_H, i as int) == (i % 8 == 7));
    }
    assert forall|i: u64| i < 64 implies (#[trigger] bit_set(!(FILE_A | FILE_B), i as int) == (0
        <= (i as int) % 8 - 2 < 8)) by {
        assert(bit_set(!(FILE_A | FILE_B), i as int) == !bit_set(FILE_A | FILE_B, i as int));
        assert(bit_set(FILE_A | FILE_B, i as int) == (bit_set(FILE_A, i as int) || bit_set(
            FILE_B,
            i as int,
        )));
        assert(bit_set(FILE_A, i as int) == (i % 8 == 0));
        assert(bit_set(FILE_B, i as int) == (i % 8 == 1));
    }
    assert forall|i: u64| i < 64 implies (#[trigger] bit_set(!(FILE_G | FILE_H), i as int) == (0
        <= (i as int) % 8 - (-2) < 8)) by {
        assert(bit_set(!(FILE_G | FILE_H), i as int) == !bit_set(FILE_G | FILE_H, i as int));
        assert(bit_set(FILE_G | FILE_H, i as int) == (bit_set(FILE_G, i as int) || bit_set(
            FILE_H,
            i as int,
        )));
        assert(bit_set(FILE_G, i as int) == (i % 8 == 6));
        assert(bit_set(FILE_H, i as int) == (i % 8 == 7));
    }
    match d {
        Direction::N => {
            lemma_shl_bits(b, 8);
            assert forall|t: int|
                #[trigger] bit_set(spec_shift(b, d), t) <==> (0 <= t < 64 && 0 <= t % 8
                    - d.file_delta() < 8 && bit_set(b, t - d.offset())) by {
                if 0 <= t < 64 {
                    let tu = t as u64;
                    assert(bit_set(b << 8, tu as int) == (tu >= 8 && bit_set(b, tu as int - 8)));
                }
            }
        },
        Direction::E => {
            lemma_masked_shl(b, 1, !FILE_A, 1);
        },
        Direction::S => {
            lemma_shr_bits(b, 8);
            assert forall|t: int|
                #[trigger] bit_set(spec_shift(b, d), t) <==> (0 <= t < 64 && 0 <= t % 8
                    - d.file_delta() < 8 && bit_set(b, t - d.offset())) by {
                if 0 <= t < 64 {
                    let tu = t as u64;
                    assert(bit_set(b >> 8, tu as int) == (tu + 8 < 64 && bit_set(b, tu + 8)));
                }
            }
        },
        Direction::W => {
            lemma_masked_shr(b, 1, !FILE_H, -1);
        },
        Direction::NE => {
            lemma_masked_shl(b, 9, !FILE_A, 1);
        },
        Direction::SE => {
            lemma_masked_shr(b, 7, !FILE_A, 1);
        },
        Direction::SW => {
            lemma_masked_shr(b, 9, !FILE_H, -1);
        },
        Direction::NW => {
            lemma_masked_shl(b, 7, !FILE_H, -1);
        },
        Direction::NNE => {
            lemma_masked_shl(b, 17, !FILE_A, 1);
        },
        Direction::NEE => {
            lemma_masked_shl(b, 10, !(FILE_A | FILE_B), 2);
        },
        Direction::SEE => {
            lemma_masked_shr(b, 6, !(FILE_A | FILE_B), 2);
        },
        Direction::SSE => {
            lemma_masked_shr(b, 15, !FILE_A, 1);
        },
        Direction::SSW => {
            lemma_masked_shr(b, 17, !FILE_H, -1);
        },
        Direction::SWW => {
            lemma_masked_shr(b, 10, !(FILE_G | FILE_H), -2);
        },
        Direction::NWW => {
            lemma_masked_shl(b, 6, !(FILE_G | FILE_H), -2);
        },
        Direction::NNW => {
            lemma_masked_shl(b, 15, !FILE_H, -1);
        },
    }
}

/// Edge safety: a shift with a westward component never lands a member on
/// file h, and a shift with an eastward component never lands one on
/// file a.
pub proof fn lemma_shift_edge_safety(b: Bitboard, d: Direction)
    ensures
        d.file_delta() < 0 ==> forall|t: int| #[trigger] bit_set(spec_shift(b, d), t) ==> t % 8
            != 7,
        d.file_delta() > 0 ==> forall|t: int| #[trigger] bit_set(spec_shift(b, d), t) ==> t % 8
            != 0,
{
    lemma_shift_semantics(b, d);
}

/// Bit-level set algebra on a bitboard.
pub trait BitboardOps: Sized {
    /// The raw square set this value stands for.
    spec fn bits(&self) -> Bitboard;

    /// The least significant set bit, kept alone (0 on the empty board).
    fn get_ls1b(&self) -> (r: Self)
        ensures
            r.bits() == spec_get_ls1b(self.bits()),
    ;

    /// The board with its least significant set bit cleared (the empty
    /// board is unchanged).
    fn remove_ls1b(&self) -> (r: Self)
        ensures
            r.bits() == spec_remove_ls1b(self.bits()),
    ;

    /// An iterator that pops the set squares in ascending order.
    fn iter(&self) -> (it: BitboardIterator)
        ensures
            it.current == self.bits(),
    ;
}

impl BitboardOps for Bitboard {
    open spec fn bits(&self) -> Bitboard {
        *self
    }

    fn get_ls1b(&self) -> (r: Self) {
        let b = *self;
        if b == 0 {
            0
        } else {
            proof {
                assert(!b < 0xFFFF_FFFF_FFFF_FFFFu64) by (bit_vector)
                    requires
                        b != 0,
                ;
            }
            b & (!b + 1)
        }
    }

    fn remove_ls1b(&self) -> (r: Self) {
        let b = *self;
        if b == 0 {
            0
        } else {
            b & (b - 1)
        }
    }

    fn iter(&self) -> (it: BitboardIterator) {
        BitboardIterator { current: *self }
    }
}

/// Walks the set squares of a bitboard, lowest first, yielding each as a
/// single-bit board.
pub struct BitboardIterator {
    pub current: Bitboard,
}

impl BitboardIterator {
    /// Pop the lowest remaining square, or `None` once the set is drained.
    pub fn next(&mut self) -> (r: Option<Bitboard>)
        ensures
            old(self).current == 0 ==> r is None && final(self).current == 0,
            old(self).current != 0 ==> {
                &&& r == Some(spec_get_ls1b(old(self).current))
                &&& final(self).current == spec_remove_ls1b(old(self).current)
                &&& iter_seq(old(self).current) == seq![spec_get_ls1b(old(self).current)]
                    + iter_seq(final(self).current)
            },
    {
        if self.current != 0 {
            let ls1b = Some(self.current.get_ls1b());
            self.current = self.current.remove_ls1b();
            ls1b
        } else {
            None
        }
    }
}

/// Membership test for a square index.
pub trait CheckIndex {
    /// Whether square `index` is a member, as a spec-level statement.
    spec fn spec_check_index(&self, index: int) -> bool;

    /// Whether square `index` is a member.
    fn check_index(&self, index: usize) -> (r: bool)
        requires
            index < 64,
        ensures
            r == self.spec_check_index(index as int),
    ;
}

impl CheckIndex for Bitboard {
    open spec fn spec_check_index(&self, index: int) -> bool {
        bit_set(*self, index)
    }

    fn check_index(&self, index: usize) -> (r: bool) {
        let b = *self;
        let i = index as u64;
        proof {
            assert((b & (1u64 << i) == 1u64 << i) == ((b >> i) & 1u64 == 1u64)) by (bit_vector)
                requires
                    i < 64,
            ;
        }
        b & (1u64 << i) == 1u64 << i
    }
}

} // verus!
