//! The board type and the executable transition engine.

use vstd::arithmetic::power2::{lemma2_to64, lemma_pow2_unfold, pow2};
use vstd::prelude::*;

use crate::laws::{lemma_shift_board_ranks, lemma_translate_onto, lemma_translate_roundtrip};
use crate::model::{
    col_of, count_eq, empty_board, initial_ok, is_terminal, lemma_count_eq_positive,
    lemma_count_eq_split, lemma_pow2_le, logical_row, merge_points, merge_ranks, moved_row,
    nonzeros, ranks_le, row_of, rows_points, shift_board, shift_points, spawn_ok, translate_spec,
};
use crate::rng::random_below;

verus! {

/// Side length of the square board.
pub const BOARD_SIZE: usize = 4;

/// The largest rank the engine accepts on an incoming board. It keeps a
/// merged rank within `u8` and every score sum within `usize`; ranks anywhere
/// near it are far beyond what play on a 4x4 board can produce.
pub const MAX_RANK: u8 = 27;

/// A movement direction.
pub enum Direction {
    Left,
    Up,
    Right,
    Down,
}

/// A 4x4 board of cell ranks in row-major order: 0 is an empty cell, a
/// positive rank `r` is a tile of face value `2^r`.
pub struct Game {
    pub board: Vec<u8>,
}

impl Game {
    /// A well-formed board holds exactly sixteen cells.
    pub open spec fn wf(&self) -> bool {
        self.board@.len() == 16
    }

    /// A new game: an empty board with tiles of rank 1 or 2 spawned at two
    /// distinct random positions.
    pub fn new() -> (g: Game)
        ensures
            g.wf(),
            initial_ok(g.board@),
            ranks_le(g.board@, 2),
    {
        let mut board = empty_cells();
        let pos1 = random_below(16);
        let mut pos2 = random_below(15);
        if pos2 >= pos1 {
            pos2 += 1;
        }
        let v1 = gen_number();
        let v2 = gen_number();
        board[pos1] = v1;
        board[pos2] = v2;
        proof {
            assert(pos1 != pos2);
            assert(board@ == empty_board().update(pos1 as int, v1).update(pos2 as int, v2));
            assert forall|k: int| 0 <= k < board@.len() implies board@[k] <= 2 by {
                if k != pos1 && k != pos2 {
                    assert(board@[k] == empty_board()[k]);
                }
            }
        }
        Game { board }
    }

    /// One full turn: move towards `direction`, spawn one tile into the
    /// moved board, and report the new board, the score delta of the move,
    /// and whether the game is over.
    pub fn step(&self, direction: &Direction) -> (res: (Game, usize, bool))
        requires
            self.wf(),
            ranks_le(self.board@, MAX_RANK as int - 1),
        ensures
            res.0.wf(),
            spawn_ok(shift_board(self.board@, *direction), res.0.board@),
            res.1 == shift_points(self.board@, *direction),
            res.2 == is_terminal(res.0.board@),
            ranks_le(res.0.board@, MAX_RANK as int),
    {
        let (mut next, reward) = self.shift(direction);
        next.add_number();
        proof {
            let shifted = shift_board(self.board@, *direction);
            lemma_shift_board_ranks(self.board@, *direction, MAX_RANK as int - 1);
            assert(ranks_le(shifted, MAX_RANK as int));
            if exists|i: int| 0 <= i < shifted.len() && #[trigger] shifted[i] == 0 {
                let (p, v) = choose|p: int, v: u8|
                    0 <= p < shifted.len() && shifted[p] == 0 && (v == 1 || v == 2)
                        && next.board@ == shifted.update(p, v);
                assert forall|k: int| 0 <= k < next.board@.len() implies next.board@[k]
                    <= MAX_RANK as int by {
                    assert(next.board@[k] == (if k == p {
                        v
                    } else {
                        shifted[k]
                    }));
                }
            } else {
                assert(next.board@ == shifted);
            }
            assert(ranks_le(next.board@, MAX_RANK as int));
        }
        let done = next.is_done();
        (next, reward, done)
    }

    /// Spawn one tile: a rank of 1 or 2 lands in a uniformly chosen empty
    /// cell; a board without empty cells stays as it is.
    pub fn add_number(&mut self)
        requires
            old(self).wf(),
        ensures
            final(self).wf(),
            spawn_ok(old(self).board@, final(self).board@),
    {
        let zeros = count_matching(&self.board, 0);
        if zeros > 0 {
            let i = random_below(zeros);
            match find_ith_occurrence(&self.board, i, 0) {
                Some(pos) => {
                    let v = gen_number();
                    self.board[pos] = v;
                    proof {
                        assert(old(self).board@[pos as int] == 0);
                        assert(self.board@ == old(self).board@.update(pos as int, v));
                    }
                },
                None => {
                    proof {
                        assert(false);
                    }
                },
            }
        } else {
            proof {
                let b = self.board@;
                assert forall|i: int| 0 <= i < b.len() implies #[trigger] b[i] != 0 by {
                    if b[i] == 0 {
                        lemma_count_eq_positive(b, 0, i);
                    }
                }
            }
        }
    }

    /// Whether the game is over: no direction's move changes the board.
    pub fn is_done(&self) -> (done: bool)
        requires
            self.wf(),
            ranks_le(self.board@, MAX_RANK as int),
        ensures
            done == is_terminal(self.board@),
    {
        let ghost b = self.board@;
        let (left, _) = self.shift(&Direction::Left);
        if !boards_equal(&self.board, &left.board) {
            return false;
        }
        let (up, _) = self.shift(&Direction::Up);
        if !boards_equal(&self.board, &up.board) {
            return false;
        }
        let (right, _) = self.shift(&Direction::Right);
        if !boards_equal(&self.board, &right.board) {
            return false;
        }
        let (down, _) = self.shift(&Direction::Down);
        if !boards_equal(&self.board, &down.board) {
            return false;
        }
        proof {
            assert forall|d: Direction| #[trigger] shift_board(b, d) == b by {
                match d {
                    Direction::Left => assert(shift_board(b, Direction::Left) == b),
                    Direction::Up => assert(shift_board(b, Direction::Up) == b),
                    Direction::Right => assert(shift_board(b, Direction::Right) == b),
                    Direction::Down => assert(shift_board(b, Direction::Down) == b),
                }
            }
        }
        true
    }

    /// One move: compact and merge every logical row towards `direction`.
    /// Returns the new board and the score delta of the move.
    #[verifier::loop_isolation(false)]
    #[verifier::rlimit(60)]
    pub fn shift(&self, direction: &Direction) -> (res: (Game, usize))
        requires
            self.wf(),
            ranks_le(self.board@, MAX_RANK as int),
        ensures
            res.0.wf(),
            res.0.board@ == shift_board(self.board@, *direction),
            res.1 == shift_points(self.board@, *direction),
    {
        let ghost b = self.board@;
        let ghost d = *direction;
        let mut out: Vec<u8> = empty_cells();
        let mut score: usize = 0;
        let mut row: usize = 0;
        while row < BOARD_SIZE
            invariant
                row <= 4,
                out@.len() == 16,
                score == rows_points(b, d, row as int),
                score <= row * 0x2000_0000,
                forall|p: int|
                    0 <= p < 16 && row_of(p, d) < row ==> out@[p] == shift_board(b, d)[p],
                forall|p: int| 0 <= p < 16 && row_of(p, d) >= row ==> out@[p] == 0,
            decreases 4 - row,
        {
            let ghost lr = logical_row(b, row as int, d);
            // gather the non-empty ranks of the logical row
            let mut vals: Vec<u8> = Vec::new();
            let mut col: usize = 0;
            while col < BOARD_SIZE
                invariant
                    col <= 4,
                    vals@ == nonzeros(lr.take(col as int)),
                    vals@.len() <= col,
                    forall|j: int| 0 <= j < vals@.len() ==> vals@[j] <= MAX_RANK && vals@[j] != 0,
                decreases 4 - col,
            {
                let idx = translate(row, col, direction);
                let v = self.board[idx];
                proof {
                    assert(lr.take(col as int + 1).drop_last() =~= lr.take(col as int));
                    assert(lr.take(col as int + 1).last() == lr[col as int]);
                    assert(lr[col as int] == b[translate_spec(row as int, col as int, d)]);
                }
                if v != 0 {
                    vals.push(v);
                }
                col += 1;
            }
            proof {
                assert(lr.take(4) =~= lr);
            }
            let ghost nz = nonzeros(lr);

            // one merge pass over the gathered ranks
            let mut merged: Vec<u8> = Vec::new();
            let mut pts: usize = 0;
            let mut i: usize = 0;
            proof {
                assert(nz.skip(0) =~= nz);
                assert(Seq::<u8>::empty() + merge_ranks(nz) =~= merge_ranks(nz));
            }
            while i < vals.len()
                invariant
                    i <= vals@.len(),
                    merged@.len() <= i,
                    merge_ranks(nz) == merged@ + merge_ranks(nz.skip(i as int)),
                    merge_points(nz) == pts + merge_points(nz.skip(i as int)),
                    pts * 2 <= i * 0x1000_0000,
                decreases vals@.len() - i,
            {
                let v = vals[i];
                let ghost t = nz.skip(i as int);
                if i + 1 < vals.len() && v == vals[i + 1] {
                    proof {
                        assert(t.len() >= 2 && t[0] == v && t[1] == v);
                        assert(t.skip(2) =~= nz.skip(i as int + 2));
                        lemma_pow2_le((v + 1) as nat, 28);
                        lemma2_to64();
                    }
                    merged.push(v + 1);
                    let face = face_value(v + 1);
                    pts += face;
                    i += 2;
                } else {
                    proof {
                        assert(t.len() >= 1 && t[0] == v);
                        if t.len() >= 2 {
                            assert(t[1] == vals@[i as int + 1]);
                        }
                        assert(t.skip(1) =~= nz.skip(i as int + 1));
                    }
                    merged.push(v);
                    i += 1;
                }
            }
            proof {
                assert(nz.skip(vals@.len() as int) =~= Seq::<u8>::empty());
                assert(merged@ + Seq::<u8>::empty() =~= merged@);
                assert(merged@ == merge_ranks(nz));
                lemma2_to64();
            }
            score += pts;

            // write the merged row back through the coordinate mapping
            let mut col: usize = 0;
            while col < BOARD_SIZE
                invariant
                    col <= 4,
                    out@.len() == 16,
                    forall|p: int|
                        0 <= p < 16 && row_of(p, d) < row ==> out@[p] == shift_board(b, d)[p],
                    forall|p: int|
                        0 <= p < 16 && row_of(p, d) == row && col_of(p, d) < col ==> out@[p]
                            == moved_row(b, row as int, d)[col_of(p, d)],
                    forall|p: int|
                        0 <= p < 16 && row_of(p, d) == row && col_of(p, d) >= col ==> out@[p] == 0,
                    forall|p: int| 0 <= p < 16 && row_of(p, d) > row ==> out@[p] == 0,
                decreases 4 - col,
            {
                let v = if col < merged.len() {
                    merged[col]
                } else {
                    0
                };
                proof {
                    assert(v == moved_row(b, row as int, d)[col as int]);
                    lemma_translate_roundtrip(row as int, col as int, d);
                }
                let idx = translate(row, col, direction);
                out[idx] = v;
                col += 1;
            }
            proof {
                assert forall|p: int| 0 <= p < 16 && row_of(p, d) == row implies out@[p]
                    == shift_board(b, d)[p] by {
                    lemma_translate_onto(p, d);
                }
            }
            row += 1;
        }
        proof {
            assert forall|p: int| 0 <= p < 16 implies out@[p] == shift_board(b, d)[p] by {
                lemma_translate_onto(p, d);
            }
            assert(out@ =~= shift_board(b, d));
        }
        (Game { board: out }, score)
    }
}

/// A fresh vector of sixteen empty cells.
fn empty_cells() -> (v: Vec<u8>)
    ensures
        v@ == empty_board(),
{
    let mut v: Vec<u8> = Vec::new();
    let mut i: usize = 0;
    while i < 16
        invariant
            i <= 16,
            v@.len() == i,
            forall|j: int| 0 <= j < i ==> v@[j] == 0,
        decreases 16 - i,
    {
        v.push(0);
        i += 1;
    }
    proof {
        assert(v@ =~= empty_board());
    }
    v
}

/// The face value `2^e` of a rank, as a machine integer.
#[verifier::loop_isolation(false)]
fn face_value(e: u8) -> (r: usize)
    requires
        e <= 30,
    ensures
        r == pow2(e as nat),
{
    let mut r: usize = 1;
    let mut k: u8 = 0;
    proof {
        lemma2_to64();
    }
    while k < e
        invariant
            k <= e,
            r == pow2(k as nat),
        decreases e - k,
    {
        proof {
            lemma_pow2_le(k as nat, 29);
            lemma2_to64();
            lemma_pow2_unfold(k as nat + 1);
        }
        r = r * 2;
        k = k + 1;
    }
    r
}

/// How many cells of `board` hold exactly `value`.
#[verifier::loop_isolation(false)]
fn count_matching(board: &Vec<u8>, value: u8) -> (n: usize)
    ensures
        n == count_eq(board@, value),
{
    let mut n: usize = 0;
    let mut j: usize = 0;
    while j < board.len()
        invariant
            j <= board@.len(),
            n <= j,
            n == count_eq(board@.take(j as int), value),
        decreases board@.len() - j,
    {
        proof {
            assert(board@.take(j as int + 1).drop_last() =~= board@.take(j as int));
            assert(board@.take(j as int + 1).last() == board@[j as int]);
        }
        if board[j] == value {
            n += 1;
        }
        j += 1;
    }
    proof {
        assert(board@.take(board@.len() as int) =~= board@);
    }
    n
}

/// The position of the `(i+1)`-th cell of `board` that holds `value`, if the
/// board has that many.
#[verifier::loop_isolation(false)]
pub fn find_ith_occurrence(board: &Vec<u8>, i: usize, value: u8) -> (r: Option<usize>)
    ensures
        (r is Some) <==> i < count_eq(board@, value),
        match r {
            Some(p) => p < board@.len() && board@[p as int] == value && count_eq(
                board@.take(p as int),
                value,
            ) == i,
            None => count_eq(board@, value) <= i,
        },
{
    let mut seen: usize = 0;
    let mut j: usize = 0;
    while j < board.len()
        invariant
            j <= board@.len(),
            seen <= i,
            seen == count_eq(board@.take(j as int), value),
        decreases board@.len() - j,
    {
        proof {
            assert(board@.take(j as int + 1).drop_last() =~= board@.take(j as int));
            assert(board@.take(j as int + 1).last() == board@[j as int]);
        }
        if board[j] == value {
            if seen == i {
                proof {
                    lemma_count_eq_split(board@, value, j as int + 1);
                }
                return Some(j);
            }
            seen += 1;
        }
        j += 1;
    }
    proof {
        assert(board@.take(board@.len() as int) =~= board@);
    }
    None
}

/// Structural equality of two sixteen-cell boards.
#[verifier::loop_isolation(false)]
fn boards_equal(a: &Vec<u8>, b: &Vec<u8>) -> (r: bool)
    requires
        a@.len() == 16,
        b@.len() == 16,
    ensures
        r <==> a@ == b@,
{
    let mut j: usize = 0;
    while j < 16
        invariant
            j <= 16,
            forall|k: int| 0 <= k < j ==> a@[k] == b@[k],
        decreases 16 - j,
    {
        if a[j] != b[j] {
            return false;
        }
        j += 1;
    }
    proof {
        assert(a@ =~= b@);
    }
    true
}

/// The rank of a newly spawned tile: 2 with probability 1/8, otherwise 1.
fn gen_number() -> (r: u8)
    ensures
        r == 1 || r == 2,
{
    if random_below(8) == 0 {
        2
    } else {
        1
    }
}

/// The physical index of logical coordinates `(row, col)` under `direction`.
pub fn translate(row: usize, col: usize, direction: &Direction) -> (idx: usize)
    requires
        row < BOARD_SIZE,
        col < BOARD_SIZE,
    ensures
        idx == translate_spec(row as int, col as int, *direction),
        idx < 16,
{
    match *direction {
        Direction::Left => row * BOARD_SIZE + col,
        Direction::Up => col * BOARD_SIZE + row,
        Direction::Right => (BOARD_SIZE - row - 1) * BOARD_SIZE + (BOARD_SIZE - col - 1),
        Direction::Down => (BOARD_SIZE - col - 1) * BOARD_SIZE + (BOARD_SIZE - row - 1),
    }
}

} // verus!

