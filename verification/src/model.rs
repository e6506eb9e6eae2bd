//! Mathematical model of the board and of one move.
//!
//! A board is a sequence of sixteen cell ranks in row-major order. All four
//! movement directions are expressed through one coordinate mapping
//! (`translate_spec`): a move compacts and merges every *logical* row from
//! logical column 0 upward, and the mapping carries logical coordinates to
//! physical indices so that the same pass sweeps the board leftward, upward,
//! rightward or downward.

use vstd::arithmetic::power2::{lemma_pow2_strictly_increases, lemma_pow2_unfold, pow2};
use vstd::prelude::*;

use crate::game::Direction;

verus! {

/// The physical cell index that logical coordinates `(row, col)` reach under
/// direction `d`: the identity for Left, the transpose for Up, and their
/// 180-degree reflections for Right and Down.
pub open spec fn translate_spec(row: int, col: int, d: Direction) -> int {
    match d {
        Direction::Left => row * 4 + col,
        Direction::Up => col * 4 + row,
        Direction::Right => (3 - row) * 4 + (3 - col),
        Direction::Down => (3 - col) * 4 + (3 - row),
    }
}

/// The logical row that physical index `p` lies on under direction `d`;
/// inverse of `translate_spec` together with `col_of`.
pub open spec fn row_of(p: int, d: Direction) -> int {
    match d {
        Direction::Left => p / 4,
        Direction::Up => p % 4,
        Direction::Right => 3 - p / 4,
        Direction::Down => 3 - p % 4,
    }
}

/// The logical column that physical index `p` lies on under direction `d`.
pub open spec fn col_of(p: int, d: Direction) -> int {
    match d {
        Direction::Left => p % 4,
        Direction::Up => p / 4,
        Direction::Right => 3 - p % 4,
        Direction::Down => 3 - p / 4,
    }
}

/// Every rank in `s` is at most `m`.
pub open spec fn ranks_le(s: Seq<u8>, m: int) -> bool {
    forall|i: int| 0 <= i < s.len() ==> s[i] <= m
}

/// The non-empty ranks of a row, in order.
pub open spec fn nonzeros(s: Seq<u8>) -> Seq<u8>
    decreases s.len(),
{
    if s.len() == 0 {
        Seq::empty()
    } else if s.last() == 0 {
        nonzeros(s.drop_last())
    } else {
        nonzeros(s.drop_last()).push(s.last())
    }
}

/// One left-to-right merge pass over the non-empty ranks of a row: two equal
/// leading ranks fuse into one tile of the next rank, and a tile fused in
/// this pass absorbs no further neighbour.
pub open spec fn merge_ranks(s: Seq<u8>) -> Seq<u8>
    decreases s.len(),
{
    if s.len() >= 2 && s[0] == s[1] {
        seq![(s[0] + 1) as u8] + merge_ranks(s.skip(2))
    } else if s.len() >= 1 {
        seq![s[0]] + merge_ranks(s.skip(1))
    } else {
        Seq::empty()
    }
}

/// The points one merge pass scores: each fusion contributes the face value
/// of the tile it creates.
pub open spec fn merge_points(s: Seq<u8>) -> nat
    decreases s.len(),
{
    if s.len() >= 2 && s[0] == s[1] {
        pow2((s[0] + 1) as nat) + merge_points(s.skip(2))
    } else if s.len() >= 1 {
        merge_points(s.skip(1))
    } else {
        0
    }
}

/// The logical row `row` of board `b` under direction `d`.
pub open spec fn logical_row(b: Seq<u8>, row: int, d: Direction) -> Seq<u8> {
    Seq::new(4, |c: int| b[translate_spec(row, c, d)])
}

/// A merged row padded with empty cells back to the board's width.
pub open spec fn pad4(m: Seq<u8>) -> Seq<u8> {
    Seq::new(4, |c: int| if 0 <= c < m.len() { m[c] } else { 0u8 })
}

/// The logical row `row` after one move: compacted, merged and padded.
pub open spec fn moved_row(b: Seq<u8>, row: int, d: Direction) -> Seq<u8> {
    pad4(merge_ranks(nonzeros(logical_row(b, row, d))))
}

/// The board after one move towards `d`.
pub open spec fn shift_board(b: Seq<u8>, d: Direction) -> Seq<u8> {
    Seq::new(16, |p: int| moved_row(b, row_of(p, d), d)[col_of(p, d)])
}

/// The points scored by the first `k` logical rows of one move.
pub open spec fn rows_points(b: Seq<u8>, d: Direction, k: int) -> nat
    decreases k,
{
    if k <= 0 {
        0
    } else {
        rows_points(b, d, k - 1) + merge_points(nonzeros(logical_row(b, k - 1, d)))
    }
}

/// The score delta of one move towards `d`.
pub open spec fn shift_points(b: Seq<u8>, d: Direction) -> nat {
    rows_points(b, d, 4)
}

/// A terminal board: no direction's move changes it.
pub open spec fn is_terminal(b: Seq<u8>) -> bool {
    forall|d: Direction| #[trigger] shift_board(b, d) == b
}

/// How many cells of `s` hold exactly `v`.
pub open spec fn count_eq(s: Seq<u8>, v: u8) -> nat
    decreases s.len(),
{
    if s.len() == 0 {
        0
    } else {
        count_eq(s.drop_last(), v) + (if s.last() == v { 1nat } else { 0nat })
    }
}

/// The face value of one cell: 0 for an empty cell, `2^r` for rank `r > 0`.
pub open spec fn cell_value(r: u8) -> nat {
    if r == 0 {
        0
    } else {
        pow2(r as nat)
    }
}

/// The total face value of a sequence of cells.
pub open spec fn seq_value(s: Seq<u8>) -> nat
    decreases s.len(),
{
    if s.len() == 0 {
        0
    } else {
        cell_value(s[0]) + seq_value(s.skip(1))
    }
}

/// The total face value of a board.
pub open spec fn board_value(b: Seq<u8>) -> nat {
    seq_value(b)
}

/// A fully compacted row: every empty cell comes after every tile.
pub open spec fn zeros_trailing(s: Seq<u8>) -> bool {
    forall|i: int, j: int| 0 <= i < j < s.len() && s[i] == 0 ==> s[j] == 0
}

/// An unmergeable row: no two neighbouring tiles hold equal ranks.
pub open spec fn no_equal_neighbours(s: Seq<u8>) -> bool {
    forall|i: int, j: int|
        0 <= i < s.len() && 0 <= j < s.len() && j == i + 1 && s[i] != 0 ==> s[i] != s[j]
}

/// A row that one move leaves as it is: fully compacted and unmergeable.
pub open spec fn row_settled(s: Seq<u8>) -> bool {
    zeros_trailing(s) && no_equal_neighbours(s)
}

/// The boards one spawn into `b` may produce: some empty cell now holds a
/// tile of rank 1 or 2; a board without empty cells stays as it is.
pub open spec fn spawn_ok(b: Seq<u8>, after: Seq<u8>) -> bool {
    if exists|i: int| 0 <= i < b.len() && #[trigger] b[i] == 0 {
        exists|p: int, v: u8|
            0 <= p < b.len() && b[p] == 0 && (v == 1 || v == 2) && after == #[trigger] b.update(
                p,
                v,
            )
    } else {
        after == b
    }
}

/// The all-empty board.
pub open spec fn empty_board() -> Seq<u8> {
    Seq::new(16, |i: int| 0u8)
}

/// The boards the initial constructor may produce: two distinct cells hold
/// tiles of rank 1 or 2, every other cell is empty.
pub open spec fn initial_ok(b: Seq<u8>) -> bool {
    exists|p1: int, p2: int, v1: u8, v2: u8|
        0 <= p1 < 16 && 0 <= p2 < 16 && p1 != p2 && (v1 == 1 || v1 == 2) && (v2 == 1 || v2 == 2)
            && b == #[trigger] empty_board().update(p1, v1).update(p2, v2)
}

/// Counting occurrences splits over any cut of the sequence.
pub proof fn lemma_count_eq_split(s: Seq<u8>, v: u8, k: int)
    requires
        0 <= k <= s.len(),
    ensures
        count_eq(s, v) == count_eq(s.take(k), v) + count_eq(s.skip(k), v),
    decreases s.len(),
{
    if k == s.len() {
        assert(s.take(k) =~= s);
        assert(s.skip(k) =~= Seq::<u8>::empty());
    } else {
        let s0 = s.drop_last();
        lemma_count_eq_split(s0, v, k);
        assert(s0.take(k) =~= s.take(k));
        assert(s.skip(k).drop_last() =~= s0.skip(k));
        assert(s.skip(k).last() == s.last());
    }
}

/// A cell that holds `v` makes the count of `v` positive.
pub proof fn lemma_count_eq_positive(s: Seq<u8>, v: u8, i: int)
    requires
        0 <= i < s.len(),
        s[i] == v,
    ensures
        count_eq(s, v) >= 1,
{
    lemma_count_eq_split(s, v, i + 1);
    assert(s.take(i + 1).drop_last() =~= s.take(i));
    assert(s.take(i + 1).last() == s[i]);
}

/// Compaction keeps every rank bound: the non-empty ranks of a bounded row
/// are bounded alike.
pub proof fn lemma_nonzeros_ranks(s: Seq<u8>, m: int)
    requires
        ranks_le(s, m),
    ensures
        ranks_le(nonzeros(s), m),
    decreases s.len(),
{
    if s.len() > 0 {
        assert(ranks_le(s.drop_last(), m));
        lemma_nonzeros_ranks(s.drop_last(), m);
    }
}

/// One merge pass raises a row's largest rank by at most one.
pub proof fn lemma_merge_ranks_le(s: Seq<u8>, m: int)
    requires
        ranks_le(s, m),
        0 <= m <= 254,
    ensures
        ranks_le(merge_ranks(s), m + 1),
    decreases s.len(),
{
    if s.len() >= 2 && s[0] == s[1] {
        assert(ranks_le(s.skip(2), m));
        lemma_merge_ranks_le(s.skip(2), m);
    } else if s.len() >= 1 {
        assert(ranks_le(s.skip(1), m));
        lemma_merge_ranks_le(s.skip(1), m);
    }
}

/// The non-empty ranks of a row are themselves non-empty.
pub proof fn lemma_nonzeros_positive(s: Seq<u8>)
    ensures
        forall|i: int| 0 <= i < nonzeros(s).len() ==> nonzeros(s)[i] != 0,
    decreases s.len(),
{
    if s.len() > 0 {
        let d0 = s.drop_last();
        lemma_nonzeros_positive(d0);
        assert forall|i: int| 0 <= i < nonzeros(s).len() implies nonzeros(s)[i] != 0 by {
            if s.last() != 0 && i < nonzeros(s).len() - 1 {
                assert(nonzeros(s)[i] == nonzeros(d0)[i]);
            }
        }
    }
}

/// Compaction never lengthens a row.
pub proof fn lemma_nonzeros_len(s: Seq<u8>)
    ensures
        nonzeros(s).len() <= s.len(),
    decreases s.len(),
{
    if s.len() > 0 {
        lemma_nonzeros_len(s.drop_last());
    }
}

/// A merge pass never lengthens a row.
pub proof fn lemma_merge_ranks_len(s: Seq<u8>)
    ensures
        merge_ranks(s).len() <= s.len(),
    decreases s.len(),
{
    if s.len() >= 2 && s[0] == s[1] {
        lemma_merge_ranks_len(s.skip(2));
    } else if s.len() >= 1 {
        lemma_merge_ranks_len(s.skip(1));
    }
}

/// A single cell's face value.
pub proof fn lemma_seq_value_one(x: u8)
    ensures
        seq_value(seq![x]) == cell_value(x),
{
    assert(seq![x].skip(1) =~= Seq::<u8>::empty());
    assert(seq_value(Seq::<u8>::empty()) == 0);
    assert(seq_value(seq![x]) == cell_value(seq![x][0]) + seq_value(seq![x].skip(1)));
}

/// Appending a cell adds its face value.
pub proof fn lemma_seq_value_push(s: Seq<u8>, x: u8)
    ensures
        seq_value(s.push(x)) == seq_value(s) + cell_value(x),
    decreases s.len(),
{
    if s.len() == 0 {
        assert(s =~= Seq::<u8>::empty());
        assert(seq_value(s) == 0);
        assert(s.push(x) =~= seq![x]);
        lemma_seq_value_one(x);
    } else {
        assert(s.push(x)[0] == s[0]);
        assert(s.push(x).skip(1) =~= s.skip(1).push(x));
        lemma_seq_value_push(s.skip(1), x);
        assert(seq_value(s.push(x)) == cell_value(s[0]) + seq_value(s.skip(1).push(x)));
    }
}

/// Face values add over concatenation.
pub proof fn lemma_seq_value_concat(a: Seq<u8>, b: Seq<u8>)
    ensures
        seq_value(a + b) == seq_value(a) + seq_value(b),
    decreases a.len(),
{
    if a.len() == 0 {
        assert(a + b =~= b);
    } else {
        assert((a + b)[0] == a[0]);
        assert((a + b).skip(1) =~= a.skip(1) + b);
        lemma_seq_value_concat(a.skip(1), b);
    }
}

/// Empty cells contribute no face value.
pub proof fn lemma_seq_value_zeros(s: Seq<u8>)
    requires
        forall|i: int| 0 <= i < s.len() ==> s[i] == 0,
    ensures
        seq_value(s) == 0,
    decreases s.len(),
{
    if s.len() > 0 {
        assert(forall|i: int| 0 <= i < s.skip(1).len() ==> s.skip(1)[i] == 0);
        lemma_seq_value_zeros(s.skip(1));
    }
}

/// Dropping empty cells keeps a row's total face value.
pub proof fn lemma_nonzeros_value(s: Seq<u8>)
    ensures
        seq_value(nonzeros(s)) == seq_value(s),
    decreases s.len(),
{
    if s.len() > 0 {
        let d0 = s.drop_last();
        lemma_nonzeros_value(d0);
        assert(s =~= d0.push(s.last()));
        lemma_seq_value_push(d0, s.last());
        if s.last() != 0 {
            lemma_seq_value_push(nonzeros(d0), s.last());
        }
    }
}

/// A merge pass keeps a row's total face value: the two tiles a fusion
/// removes are replaced by one tile of their summed face value.
pub proof fn lemma_merge_ranks_value(s: Seq<u8>)
    requires
        forall|i: int| 0 <= i < s.len() ==> s[i] != 0,
        ranks_le(s, 254),
    ensures
        seq_value(merge_ranks(s)) == seq_value(s),
    decreases s.len(),
{
    if s.len() >= 2 && s[0] == s[1] {
        let h = (s[0] + 1) as u8;
        let rest = s.skip(2);
        assert(forall|i: int| 0 <= i < rest.len() ==> rest[i] != 0);
        assert(ranks_le(rest, 254));
        lemma_merge_ranks_value(rest);
        lemma_seq_value_concat(seq![h], merge_ranks(rest));
        lemma_seq_value_one(h);
        lemma_pow2_unfold((s[0] + 1) as nat);
        assert(cell_value(h) == cell_value(s[0]) + cell_value(s[1]));
        assert(s.skip(1)[0] == s[1]);
        assert(s.skip(1).skip(1) =~= s.skip(2));
        assert(seq_value(s.skip(1)) == cell_value(s[1]) + seq_value(rest));
    } else if s.len() >= 1 {
        let rest = s.skip(1);
        assert(forall|i: int| 0 <= i < rest.len() ==> rest[i] != 0);
        assert(ranks_le(rest, 254));
        lemma_merge_ranks_value(rest);
        lemma_seq_value_concat(seq![s[0]], merge_ranks(rest));
        lemma_seq_value_one(s[0]);
    }
}

/// The total face value of a four-cell row, cell by cell.
pub proof fn lemma_seq_value4(s: Seq<u8>)
    requires
        s.len() == 4,
    ensures
        seq_value(s) == cell_value(s[0]) + cell_value(s[1]) + cell_value(s[2]) + cell_value(s[3]),
{
    assert(s.skip(1).skip(1) =~= s.skip(2));
    assert(s.skip(2).skip(1) =~= s.skip(3));
    assert(s.skip(3).skip(1) =~= s.skip(4));
    assert(s.skip(4) =~= Seq::<u8>::empty());
    assert(seq_value(s.skip(3)) == cell_value(s[3]) + seq_value(s.skip(4)));
    assert(seq_value(s.skip(2)) == cell_value(s[2]) + seq_value(s.skip(3)));
    assert(seq_value(s.skip(1)) == cell_value(s[1]) + seq_value(s.skip(2)));
}

/// The total face value of a board, cell by cell.
pub proof fn lemma_seq_value16(b: Seq<u8>)
    requires
        b.len() == 16,
    ensures
        seq_value(b) == cell_value(b[0]) + cell_value(b[1]) + cell_value(b[2]) + cell_value(b[3])
            + cell_value(b[4]) + cell_value(b[5]) + cell_value(b[6]) + cell_value(b[7])
            + cell_value(b[8]) + cell_value(b[9]) + cell_value(b[10]) + cell_value(b[11])
            + cell_value(b[12]) + cell_value(b[13]) + cell_value(b[14]) + cell_value(b[15]),
{
    let q0 = b.subrange(0, 4);
    let q1 = b.subrange(4, 8);
    let q2 = b.subrange(8, 12);
    let q3 = b.subrange(12, 16);
    assert(b =~= q0 + q1 + q2 + q3);
    lemma_seq_value_concat(q0, q1);
    lemma_seq_value_concat(q0 + q1, q2);
    lemma_seq_value_concat(q0 + q1 + q2, q3);
    lemma_seq_value4(q0);
    lemma_seq_value4(q1);
    lemma_seq_value4(q2);
    lemma_seq_value4(q3);
}

/// `pow2` does not decrease as the exponent grows.
pub proof fn lemma_pow2_le(e1: nat, e2: nat)
    requires
        e1 <= e2,
    ensures
        pow2(e1) <= pow2(e2),
{
    if e1 < e2 {
        lemma_pow2_strictly_increases(e1, e2);
    }
}

} // verus!
