use vstd::prelude::*;
use crate::bitboard::{bit, square_bb, group_bits, lemma_test_square, bb_of, lemma_bb_of};

verus! {

broadcast use group_bits;

/// The rank of square `s`, 0 for the first rank.
pub open spec fn rank_of(s: int) -> int {
    s / 8
}

/// The file of square `s`, 0 for the h file and 7 for the a file.
pub open spec fn file_of(s: int) -> int {
    s % 8
}

pub open spec fn valid_sq(s: int) -> bool {
    0 <= s < 64
}

pub open spec fn on_board(r: int, f: int) -> bool {
    0 <= r < 8 && 0 <= f < 8
}

/// The square at rank `r` and file `f`.
pub open spec fn sq(r: int, f: int) -> int {
    r * 8 + f
}

pub open spec fn abs(x: int) -> int {
    if x < 0 {
        -x
    } else {
        x
    }
}

/// The square at rank `r` and file `f` has that rank and file.
pub proof fn lemma_sq_coords(r: int, f: int)
    requires
        on_board(r, f),
    ensures
        valid_sq(sq(r, f)),
        rank_of(sq(r, f)) == r,
        file_of(sq(r, f)) == f,
{
}

/// A square is the square at its rank and file.
pub proof fn lemma_coords_sq(s: int)
    requires
        valid_sq(s),
    ensures
        on_board(rank_of(s), file_of(s)),
        sq(rank_of(s), file_of(s)) == s,
{
}

/// A knight on `s` attacks `t`.
pub open spec fn knight_step(s: int, t: int) -> bool {
    let dr = abs(rank_of(t) - rank_of(s));
    let df = abs(file_of(t) - file_of(s));
    valid_sq(s) && valid_sq(t) && ((dr == 1 && df == 2) || (dr == 2 && df == 1))
}

/// A king on `s` attacks `t`.
pub open spec fn king_step(s: int, t: int) -> bool {
    let dr = abs(rank_of(t) - rank_of(s));
    let df = abs(file_of(t) - file_of(s));
    valid_sq(s) && valid_sq(t) && dr <= 1 && df <= 1 && !(dr == 0 && df == 0)
}

/// A white pawn on `s` attacks `t` (one rank up, one file aside).
pub open spec fn white_pawn_attack(s: int, t: int) -> bool {
    valid_sq(s) && valid_sq(t) && rank_of(t) == rank_of(s) + 1 && abs(file_of(t) - file_of(s)) == 1
}

/// A black pawn on `s` attacks `t` (one rank down, one file aside).
pub open spec fn black_pawn_attack(s: int, t: int) -> bool {
    valid_sq(s) && valid_sq(t) && rank_of(t) == rank_of(s) - 1 && abs(file_of(t) - file_of(s)) == 1
}

/// Rank step of direction `d`: directions 0..4 are the rook's, 4..8 the bishop's.
pub open spec fn dir_dr(d: int) -> int {
    if d == 0 || d == 4 || d == 5 {
        1
    } else if d == 1 || d == 6 || d == 7 {
        -1
    } else {
        0
    }
}

/// File step of direction `d`.
pub open spec fn dir_df(d: int) -> int {
    if d == 2 || d == 4 || d == 6 {
        1
    } else if d == 3 || d == 5 || d == 7 {
        -1
    } else {
        0
    }
}

/// The rank offset after `m` steps in direction `d`.
pub open spec fn step_r(d: int, m: int) -> int {
    if dir_dr(d) == 1 {
        m
    } else if dir_dr(d) == -1 {
        -m
    } else {
        0
    }
}

/// The file offset after `m` steps in direction `d`.
pub open spec fn step_f(d: int, m: int) -> int {
    if dir_df(d) == 1 {
        m
    } else if dir_df(d) == -1 {
        -m
    } else {
        0
    }
}

/// The square `m` steps from `s` in direction `d`.
pub open spec fn ray_sq(s: int, d: int, m: int) -> int {
    sq(rank_of(s) + step_r(d, m), file_of(s) + step_f(d, m))
}

/// How many steps in direction `d` lead from `s` to `t`, if `t` lies on that ray.
pub open spec fn ray_dist(s: int, d: int, t: int) -> int {
    if dir_df(d) != 0 {
        abs(file_of(t) - file_of(s))
    } else {
        abs(rank_of(t) - rank_of(s))
    }
}

/// `t` lies on the ray from `s` in direction `d` (not counting `s`).
pub open spec fn on_ray(s: int, d: int, t: int) -> bool {
    let m = ray_dist(s, d, t);
    m >= 1 && rank_of(t) == rank_of(s) + step_r(d, m) && file_of(t) == file_of(s) + step_f(d, m)
}

/// No square strictly before step `m` on the ray from `s` in direction `d` is occupied.
pub open spec fn clear_path(s: int, d: int, m: int, occupied: u64) -> bool {
    forall|k: int| 1 <= k < m ==> !#[trigger] bit(occupied, ray_sq(s, d, k))
}

/// A piece sliding from `s` in direction `d` reaches `t` (its first blocker included).
pub open spec fn slide(s: int, d: int, occupied: u64, t: int) -> bool {
    valid_sq(s) && valid_sq(t) && on_ray(s, d, t) && clear_path(s, d, ray_dist(s, d, t), occupied)
}

/// A rook on `s` attacks `t`, given the occupied squares.
pub open spec fn rook_attack(s: int, occupied: u64, t: int) -> bool {
    slide(s, 0, occupied, t) || slide(s, 1, occupied, t) || slide(s, 2, occupied, t) || slide(
        s,
        3,
        occupied,
        t,
    )
}

/// A bishop on `s` attacks `t`, given the occupied squares.
pub open spec fn bishop_attack(s: int, occupied: u64, t: int) -> bool {
    slide(s, 4, occupied, t) || slide(s, 5, occupied, t) || slide(s, 6, occupied, t) || slide(
        s,
        7,
        occupied,
        t,
    )
}

/// A queen on `s` attacks `t`, given the occupied squares.
pub open spec fn queen_attack(s: int, occupied: u64, t: int) -> bool {
    rook_attack(s, occupied, t) || bishop_attack(s, occupied, t)
}


pub open spec fn knight_bb(s: int) -> u64 {
    bb_of(|t: int| knight_step(s, t))
}

pub open spec fn king_bb(s: int) -> u64 {
    bb_of(|t: int| king_step(s, t))
}

pub open spec fn white_pawn_bb(s: int) -> u64 {
    bb_of(|t: int| white_pawn_attack(s, t))
}

pub open spec fn black_pawn_bb(s: int) -> u64 {
    bb_of(|t: int| black_pawn_attack(s, t))
}

pub open spec fn rook_bb(s: int, occupied: u64) -> u64 {
    bb_of(|t: int| rook_attack(s, occupied, t))
}

pub open spec fn bishop_bb(s: int, occupied: u64) -> u64 {
    bb_of(|t: int| bishop_attack(s, occupied, t))
}

pub open spec fn queen_bb(s: int, occupied: u64) -> u64 {
    bb_of(|t: int| queen_attack(s, occupied, t))
}

/// A white pawn on `s` can step to `t` (one square, or two from the second rank), given the
/// occupied squares.
pub open spec fn white_pawn_step(s: int, occupied: u64, t: int) -> bool {
    valid_sq(s) && ((t == s + 8 && valid_sq(t) && !bit(occupied, t)) || (rank_of(s) == 1 && t == s
        + 16 && !bit(occupied, s + 8) && !bit(occupied, s + 16)))
}

/// A black pawn on `s` can step to `t` (one square, or two from the seventh rank), given the
/// occupied squares.
pub open spec fn black_pawn_step(s: int, occupied: u64, t: int) -> bool {
    valid_sq(s) && ((t == s - 8 && valid_sq(t) && !bit(occupied, t)) || (rank_of(s) == 6 && t == s
        - 16 && !bit(occupied, s - 8) && !bit(occupied, s - 16)))
}

pub open spec fn white_steps_bb(s: int, occupied: u64) -> u64 {
    bb_of(|t: int| white_pawn_step(s, occupied, t))
}

pub open spec fn black_steps_bb(s: int, occupied: u64) -> u64 {
    bb_of(|t: int| black_pawn_step(s, occupied, t))
}

fn dir_delta(d: usize) -> (res: (i32, i32))
    requires
        d < 8,
    ensures
        res.0 == dir_dr(d as int),
        res.1 == dir_df(d as int),
{
    if d == 0 {
        (1, 0)
    } else if d == 1 {
        (-1, 0)
    } else if d == 2 {
        (0, 1)
    } else if d == 3 {
        (0, -1)
    } else if d == 4 {
        (1, 1)
    } else if d == 5 {
        (1, -1)
    } else if d == 6 {
        (-1, 1)
    } else {
        (-1, -1)
    }
}

/// The squares a slider on `index` reaches in direction `d`.
fn ray_attacks(index: usize, occupied: u64, d: usize) -> (res: u64)
    requires
        index < 64,
        d < 8,
    ensures
        forall|t: int| #[trigger] bit(res, t) <==> slide(index as int, d as int, occupied, t),
{
    let ghost s = index as int;
    let ghost dd = d as int;
    let (dr, df) = dir_delta(d);
    let mut r: i32 = (index / 8) as i32 + dr;
    let mut f: i32 = (index % 8) as i32 + df;
    let mut acc: u64 = 0;
    let ghost mut m: int = 1;
    while 0 <= r && r < 8 && 0 <= f && f < 8
        invariant_except_break
            r == rank_of(s) + step_r(dd, m),
            f == file_of(s) + step_f(dd, m),
            1 <= m <= 8,
            clear_path(s, dd, m, occupied),
            forall|t: int|
                #[trigger] bit(acc, t) <==> slide(s, dd, occupied, t) && ray_dist(s, dd, t) < m,
        invariant
            0 <= s < 64,
            dd == d,
            d < 8,
            dr == dir_dr(dd),
            df == dir_df(dd),
        ensures
            forall|t: int| #[trigger] bit(acc, t) <==> slide(s, dd, occupied, t),
        decreases 8 - m,
    {
        let t: usize = (r * 8 + f) as usize;
        proof {
            lemma_sq_coords(r as int, f as int);
            assert(ray_sq(s, dd, m) == t as int);
            lemma_test_square(occupied, t as int);
        }
        acc = acc | (1u64 << t);
        assert forall|u: int| #[trigger] bit(acc, u) <==> slide(s, dd, occupied, u) && ray_dist(s, dd, u) < m + 1 by {
            assert(bit(square_bb(t as int), u) <==> u == t);
            if u == t as int {
                assert(ray_dist(s, dd, u) == m);
            }
            if slide(s, dd, occupied, u) && ray_dist(s, dd, u) == m {
                assert(u == t as int);
            }
        }
        if occupied & (1u64 << t) != 0 {
            assert forall|u: int| #[trigger] bit(acc, u) <==> slide(s, dd, occupied, u) by {
                if slide(s, dd, occupied, u) && ray_dist(s, dd, u) > m {
                    assert(bit(occupied, ray_sq(s, dd, m)));
                }
            }
            break;
        }
        r = r + dr;
        f = f + df;
        proof {
            m = m + 1;
        }
    }
    acc
}

/// The squares a rook on `index` attacks, given the occupied squares.
pub fn get_rook_moves(index: usize, occupied: u64) -> (res: u64)
    requires
        index < 64,
    ensures
        forall|t: int| #[trigger] bit(res, t) <==> rook_attack(index as int, occupied, t),
        res == rook_bb(index as int, occupied),
{
    let res = ray_attacks(index, occupied, 0) | ray_attacks(index, occupied, 1) | ray_attacks(
        index,
        occupied,
        2,
    ) | ray_attacks(index, occupied, 3);
    proof {
        lemma_bb_of(res, |t: int| rook_attack(index as int, occupied, t));
    }
    res
}

/// The squares a bishop on `index` attacks, given the occupied squares.
pub fn get_bishop_moves(index: usize, occupied: u64) -> (res: u64)
    requires
        index < 64,
    ensures
        forall|t: int| #[trigger] bit(res, t) <==> bishop_attack(index as int, occupied, t),
        res == bishop_bb(index as int, occupied),
{
    let res = ray_attacks(index, occupied, 4) | ray_attacks(index, occupied, 5) | ray_attacks(
        index,
        occupied,
        6,
    ) | ray_attacks(index, occupied, 7);
    proof {
        lemma_bb_of(res, |t: int| bishop_attack(index as int, occupied, t));
    }
    res
}

/// The squares a queen on `index` attacks, given the occupied squares.
pub fn get_queen_moves(index: usize, occupied: u64) -> (res: u64)
    requires
        index < 64,
    ensures
        forall|t: int| #[trigger] bit(res, t) <==> queen_attack(index as int, occupied, t),
        res == queen_bb(index as int, occupied),
{
    let res = get_rook_moves(index, occupied) | get_bishop_moves(index, occupied);
    proof {
        lemma_bb_of(res, |t: int| queen_attack(index as int, occupied, t));
    }
    res
}


/// `acc` with the square at the given offset from `index` added, when it is on the board.
fn add_offset(acc: u64, index: usize, dr: i32, df: i32) -> (res: u64)
    requires
        index < 64,
        -2 <= dr <= 2,
        -2 <= df <= 2,
    ensures
        forall|t: int|
            #[trigger] bit(res, t) <==> bit(acc, t) || (on_board(
                rank_of(index as int) + dr,
                file_of(index as int) + df,
            ) && t == sq(rank_of(index as int) + dr, file_of(index as int) + df)),
{
    let r: i32 = (index / 8) as i32 + dr;
    let f: i32 = (index % 8) as i32 + df;
    if 0 <= r && r < 8 && 0 <= f && f < 8 {
        let t: usize = (r * 8 + f) as usize;
        proof {
            lemma_sq_coords(r as int, f as int);
        }
        let res = acc | (1u64 << t);
        assert forall|u: int| #[trigger] bit(res, u) <==> bit(acc, u) || u == t as int by {
            assert(bit(square_bb(t as int), u) <==> u == t as int);
        }
        res
    } else {
        acc
    }
}

/// The squares a knight on `index` attacks.
pub fn knight_attacks(index: usize) -> (res: u64)
    requires
        index < 64,
    ensures
        forall|t: int| #[trigger] bit(res, t) <==> knight_step(index as int, t),
        res == knight_bb(index as int),
{
    let mut b: u64 = 0;
    b = add_offset(b, index, 1, 2);
    b = add_offset(b, index, 1, -2);
    b = add_offset(b, index, -1, 2);
    b = add_offset(b, index, -1, -2);
    b = add_offset(b, index, 2, 1);
    b = add_offset(b, index, 2, -1);
    b = add_offset(b, index, -2, 1);
    b = add_offset(b, index, -2, -1);
    assert forall|t: int| #[trigger] bit(b, t) <==> knight_step(index as int, t) by {
        if valid_sq(t) {
            lemma_coords_sq(t);
        }
    }
    proof {
        lemma_bb_of(b, |t: int| knight_step(index as int, t));
    }
    b
}

/// The squares a king on `index` attacks.
pub fn king_attacks(index: usize) -> (res: u64)
    requires
        index < 64,
    ensures
        forall|t: int| #[trigger] bit(res, t) <==> king_step(index as int, t),
        res == king_bb(index as int),
{
    let mut b: u64 = 0;
    b = add_offset(b, index, 1, 1);
    b = add_offset(b, index, 1, 0);
    b = add_offset(b, index, 1, -1);
    b = add_offset(b, index, 0, 1);
    b = add_offset(b, index, 0, -1);
    b = add_offset(b, index, -1, 1);
    b = add_offset(b, index, -1, 0);
    b = add_offset(b, index, -1, -1);
    assert forall|t: int| #[trigger] bit(b, t) <==> king_step(index as int, t) by {
        if valid_sq(t) {
            lemma_coords_sq(t);
        }
    }
    proof {
        lemma_bb_of(b, |t: int| king_step(index as int, t));
    }
    b
}

/// The squares a white pawn on `index` attacks.
pub fn white_pawn_attacks(index: usize) -> (res: u64)
    requires
        index < 64,
    ensures
        forall|t: int| #[trigger] bit(res, t) <==> white_pawn_attack(index as int, t),
        res == white_pawn_bb(index as int),
{
    let mut b: u64 = 0;
    b = add_offset(b, index, 1, 1);
    b = add_offset(b, index, 1, -1);
    assert forall|t: int| #[trigger] bit(b, t) <==> white_pawn_attack(index as int, t) by {
        if valid_sq(t) {
            lemma_coords_sq(t);
        }
    }
    proof {
        lemma_bb_of(b, |t: int| white_pawn_attack(index as int, t));
    }
    b
}

/// The squares a black pawn on `index` attacks.
pub fn black_pawn_attacks(index: usize) -> (res: u64)
    requires
        index < 64,
    ensures
        forall|t: int| #[trigger] bit(res, t) <==> black_pawn_attack(index as int, t),
        res == black_pawn_bb(index as int),
{
    let mut b: u64 = 0;
    b = add_offset(b, index, -1, 1);
    b = add_offset(b, index, -1, -1);
    assert forall|t: int| #[trigger] bit(b, t) <==> black_pawn_attack(index as int, t) by {
        if valid_sq(t) {
            lemma_coords_sq(t);
        }
    }
    proof {
        lemma_bb_of(b, |t: int| black_pawn_attack(index as int, t));
    }
    b
}


/// The squares a white pawn on `index` can step to, given the occupied squares.
pub fn get_white_pawn_steps(index: usize, occupied: u64) -> (res: u64)
    requires
        index < 64,
    ensures
        forall|t: int| #[trigger] bit(res, t) <==> white_pawn_step(index as int, occupied, t),
        res == white_steps_bb(index as int, occupied),
{
    let mut b: u64 = 0;
    if index < 56 && occupied & (1u64 << (index + 8)) == 0 {
        proof {
            lemma_test_square(occupied, index + 8);
        }
        b = 1u64 << (index + 8);
        if 8 <= index && index < 16 && occupied & (1u64 << (index + 16)) == 0 {
            proof {
                lemma_test_square(occupied, index + 16);
            }
            b = b | (1u64 << (index + 16));
        }
    }
    proof {
        if index < 56 {
            lemma_test_square(occupied, index + 8);
        }
        if 8 <= index < 16 {
            lemma_test_square(occupied, index + 16);
        }
        assert forall|t: int| #[trigger] bit(b, t) <==> white_pawn_step(index as int, occupied, t) by {
            if index < 56 {
                assert(bit(square_bb(index + 8), t) <==> t == index + 8);
            }
            if 8 <= index < 16 {
                assert(bit(square_bb(index + 16), t) <==> t == index + 16);
            }
        }
        lemma_bb_of(b, |t: int| white_pawn_step(index as int, occupied, t));
    }
    b
}

/// The squares a black pawn on `index` can step to, given the occupied squares.
pub fn get_black_pawn_steps(index: usize, occupied: u64) -> (res: u64)
    requires
        index < 64,
    ensures
        forall|t: int| #[trigger] bit(res, t) <==> black_pawn_step(index as int, occupied, t),
        res == black_steps_bb(index as int, occupied),
{
    let mut b: u64 = 0;
    if index >= 8 && occupied & (1u64 << (index - 8)) == 0 {
        proof {
            lemma_test_square(occupied, index - 8);
        }
        b = 1u64 << (index - 8);
        if 48 <= index && index < 56 && occupied & (1u64 << (index - 16)) == 0 {
            proof {
                lemma_test_square(occupied, index - 16);
            }
            b = b | (1u64 << (index - 16));
        }
    }
    proof {
        if index >= 8 {
            lemma_test_square(occupied, index - 8);
        }
        if 48 <= index < 56 {
            lemma_test_square(occupied, index - 16);
        }
        assert forall|t: int| #[trigger] bit(b, t) <==> black_pawn_step(index as int, occupied, t) by {
            if index >= 8 {
                assert(bit(square_bb(index - 8), t) <==> t == index - 8);
            }
            if 48 <= index < 56 {
                assert(bit(square_bb(index - 16), t) <==> t == index - 16);
            }
        }
        lemma_bb_of(b, |t: int| black_pawn_step(index as int, occupied, t));
    }
    b
}

/// A white pawn on `index` promotes with its next step (it stands on the seventh rank).
pub fn white_pawn_promotion(index: usize) -> (res: bool)
    ensures
        res == (rank_of(index as int) == 6),
{
    48 <= index && index < 56
}

/// A black pawn on `index` promotes with its next step (it stands on the second rank).
pub fn black_pawn_promotion(index: usize) -> (res: bool)
    ensures
        res == (rank_of(index as int) == 1),
{
    8 <= index && index < 16
}

} // verus!
