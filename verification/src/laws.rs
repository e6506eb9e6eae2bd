//! Proved laws of the engine: the coordinate mapping is a bijection, a move
//! conserves the board's total face value, and a settled row is left as it is.

use vstd::prelude::*;

use crate::game::Direction;
use crate::model::{
    board_value, col_of, lemma_merge_ranks_le, lemma_merge_ranks_len, lemma_merge_ranks_value,
    lemma_nonzeros_len, lemma_nonzeros_positive, lemma_nonzeros_ranks, lemma_nonzeros_value,
    lemma_seq_value16, lemma_seq_value4, lemma_seq_value_concat, lemma_seq_value_zeros,
    logical_row, merge_points, merge_ranks, moved_row, nonzeros, pad4, ranks_le, row_of,
    row_settled, rows_points, seq_value, shift_board, shift_points, translate_spec,
    zeros_trailing,
};

verus! {

/// The coordinate mapping is self-consistent: under any direction the
/// physical index of logical coordinates lies on the board, and `row_of` and
/// `col_of` recover the logical coordinates from it.
pub proof fn lemma_translate_roundtrip(row: int, col: int, d: Direction)
    requires
        0 <= row < 4,
        0 <= col < 4,
    ensures
        0 <= translate_spec(row, col, d) < 16,
        row_of(translate_spec(row, col, d), d) == row,
        col_of(translate_spec(row, col, d), d) == col,
{
}

/// Every physical index is reached by the coordinate mapping: translating
/// the logical coordinates an index lies on gives back that index.
pub proof fn lemma_translate_onto(p: int, d: Direction)
    requires
        0 <= p < 16,
    ensures
        0 <= row_of(p, d) < 4,
        0 <= col_of(p, d) < 4,
        translate_spec(row_of(p, d), col_of(p, d), d) == p,
{
}

/// The coordinate mapping is injective on the board: two logical coordinate
/// pairs that reach the same physical index are the same pair.
pub proof fn lemma_translate_injective(r1: int, c1: int, r2: int, c2: int, d: Direction)
    requires
        0 <= r1 < 4,
        0 <= c1 < 4,
        0 <= r2 < 4,
        0 <= c2 < 4,
        translate_spec(r1, c1, d) == translate_spec(r2, c2, d),
    ensures
        r1 == r2,
        c1 == c2,
{
    lemma_translate_roundtrip(r1, c1, d);
    lemma_translate_roundtrip(r2, c2, d);
}

/// One move raises the board's largest rank by at most one: a move on a
/// board whose ranks are at most `m` gives a board whose ranks are at most
/// `m + 1`.
pub proof fn lemma_shift_board_ranks(b: Seq<u8>, d: Direction, m: int)
    requires
        b.len() == 16,
        ranks_le(b, m),
        0 <= m <= 254,
    ensures
        ranks_le(shift_board(b, d), m + 1),
{
    assert forall|p: int| 0 <= p < 16 implies #[trigger] shift_board(b, d)[p] <= m + 1 by {
        lemma_translate_onto(p, d);
        let r = row_of(p, d);
        let c = col_of(p, d);
        let lr = logical_row(b, r, d);
        assert forall|k: int| 0 <= k < 4 implies #[trigger] lr[k] <= m by {
            lemma_translate_roundtrip(r, k, d);
        }
        lemma_nonzeros_ranks(lr, m);
        lemma_merge_ranks_le(nonzeros(lr), m);
        assert(shift_board(b, d)[p] == moved_row(b, r, d)[c]);
    }
}

/// The board's total face value is the sum of its logical rows' values
/// under any one direction: the coordinate mapping only reorders the cells.
pub proof fn lemma_board_value_by_rows(b: Seq<u8>, d: Direction)
    requires
        b.len() == 16,
    ensures
        board_value(b) == seq_value(logical_row(b, 0, d)) + seq_value(logical_row(b, 1, d))
            + seq_value(logical_row(b, 2, d)) + seq_value(logical_row(b, 3, d)),
{
    lemma_seq_value16(b);
    lemma_seq_value4(logical_row(b, 0, d));
    lemma_seq_value4(logical_row(b, 1, d));
    lemma_seq_value4(logical_row(b, 2, d));
    lemma_seq_value4(logical_row(b, 3, d));
    assert forall|r: int, c: int| 0 <= r < 4 && 0 <= c < 4 implies #[trigger] logical_row(
        b,
        r,
        d,
    )[c] == b[translate_spec(r, c, d)] by {}
    match d {
        Direction::Left => {
        },
        Direction::Up => {
        },
        Direction::Right => {
        },
        Direction::Down => {
        },
    }
}

/// Reading a moved board's logical row gives the moved row itself: the
/// coordinate mapping writes each merged row back where it was read.
pub proof fn lemma_shift_board_row(b: Seq<u8>, d: Direction, r: int)
    requires
        b.len() == 16,
        0 <= r < 4,
    ensures
        logical_row(shift_board(b, d), r, d) == moved_row(b, r, d),
{
    let sb = shift_board(b, d);
    assert forall|c: int| 0 <= c < 4 implies logical_row(sb, r, d)[c] == moved_row(b, r, d)[c] by {
        lemma_translate_roundtrip(r, c, d);
        assert(logical_row(sb, r, d)[c] == sb[translate_spec(r, c, d)]);
    }
    assert(logical_row(sb, r, d) =~= moved_row(b, r, d));
}

/// One moved row holds the same total face value as the row it came from.
pub proof fn lemma_moved_row_value(b: Seq<u8>, d: Direction, r: int)
    requires
        b.len() == 16,
        ranks_le(b, 254),
        0 <= r < 4,
    ensures
        seq_value(moved_row(b, r, d)) == seq_value(logical_row(b, r, d)),
{
    let lr = logical_row(b, r, d);
    assert forall|k: int| 0 <= k < 4 implies #[trigger] lr[k] <= 254 by {
        lemma_translate_roundtrip(r, k, d);
    }
    assert(ranks_le(lr, 254));
    lemma_nonzeros_ranks(lr, 254);
    lemma_nonzeros_positive(lr);
    lemma_nonzeros_value(lr);
    let nz = nonzeros(lr);
    lemma_merge_ranks_value(nz);
    lemma_nonzeros_len(lr);
    lemma_merge_ranks_len(nz);
    let m = merge_ranks(nz);
    let z = pad4(m).skip(m.len() as int);
    assert(pad4(m) =~= m + z);
    assert(forall|i: int| 0 <= i < z.len() ==> z[i] == 0);
    lemma_seq_value_concat(m, z);
    lemma_seq_value_zeros(z);
}

/// A move conserves the board's total face value: every fusion removes two
/// tiles of one face value and creates one tile of their sum; only the
/// score delta records the gain.
pub proof fn lemma_shift_conserves_value(b: Seq<u8>, d: Direction)
    requires
        b.len() == 16,
        ranks_le(b, 254),
    ensures
        board_value(shift_board(b, d)) == board_value(b),
{
    let sb = shift_board(b, d);
    lemma_board_value_by_rows(b, d);
    lemma_board_value_by_rows(sb, d);
    lemma_shift_board_row(b, d, 0);
    lemma_shift_board_row(b, d, 1);
    lemma_shift_board_row(b, d, 2);
    lemma_shift_board_row(b, d, 3);
    lemma_moved_row_value(b, d, 0);
    lemma_moved_row_value(b, d, 1);
    lemma_moved_row_value(b, d, 2);
    lemma_moved_row_value(b, d, 3);
}

/// In a fully compacted row, compaction finds nothing to do: the non-empty
/// ranks are exactly the row's leading cells, and everything after them is
/// empty.
pub proof fn lemma_settled_nonzeros(s: Seq<u8>)
    requires
        zeros_trailing(s),
    ensures
        nonzeros(s).len() <= s.len(),
        forall|i: int| 0 <= i < nonzeros(s).len() ==> nonzeros(s)[i] == s[i],
        forall|i: int| nonzeros(s).len() <= i < s.len() ==> s[i] == 0,
    decreases s.len(),
{
    if s.len() > 0 {
        let d0 = s.drop_last();
        assert(zeros_trailing(d0)) by {
            assert forall|i: int, j: int|
                0 <= i < j < d0.len() && d0[i] == 0 implies d0[j] == 0 by {
                assert(s[i] == 0);
            }
        }
        lemma_settled_nonzeros(d0);
        lemma_nonzeros_len(d0);
        if s.last() == 0 {
            assert forall|i: int| 0 <= i < nonzeros(s).len() implies nonzeros(s)[i] == s[i] by {
                assert(nonzeros(s)[i] == nonzeros(d0)[i]);
                assert(nonzeros(d0)[i] == d0[i]);
            }
            assert forall|i: int| nonzeros(s).len() <= i < s.len() implies s[i] == 0 by {
                if i < d0.len() {
                    assert(d0[i] == 0);
                }
            }
        } else {
            assert(nonzeros(d0).len() == d0.len()) by {
                if nonzeros(d0).len() < d0.len() {
                    assert(d0[nonzeros(d0).len() as int] == 0);
                    assert(s[nonzeros(d0).len() as int] == 0);
                    assert(s[s.len() - 1] == 0);
                }
            }
            assert forall|i: int| 0 <= i < nonzeros(s).len() implies nonzeros(s)[i] == s[i] by {
                if i < nonzeros(s).len() - 1 {
                    assert(nonzeros(s)[i] == nonzeros(d0)[i]);
                    assert(nonzeros(d0)[i] == d0[i]);
                }
            }
        }
    }
}

/// A merge pass over a row without equal neighbouring ranks changes nothing
/// and scores nothing.
pub proof fn lemma_merge_unmergeable(t: Seq<u8>)
    requires
        forall|i: int, j: int| 0 <= i < t.len() && 0 <= j < t.len() && j == i + 1 ==> t[i] != t[j],
    ensures
        merge_ranks(t) == t,
        merge_points(t) == 0,
    decreases t.len(),
{
    if t.len() >= 2 && t[0] == t[1] {
        assert(false);
    } else if t.len() >= 1 {
        let rest = t.skip(1);
        assert forall|i: int, j: int|
            0 <= i < rest.len() && 0 <= j < rest.len() && j == i + 1 implies rest[i] != rest[j] by {
            assert(t[i + 1] != t[j + 1]);
        }
        lemma_merge_unmergeable(rest);
        assert(seq![t[0]] + rest =~= t);
    } else {
        assert(merge_ranks(t) =~= t);
    }
}

/// A settled row is left exactly as it is by a further move along its own
/// direction, and that move scores nothing: compaction finds no empty cell
/// to close and the merge pass no equal neighbours.
pub proof fn lemma_settled_row_shift_noop(s: Seq<u8>)
    requires
        s.len() == 4,
        row_settled(s),
    ensures
        pad4(merge_ranks(nonzeros(s))) == s,
        merge_points(nonzeros(s)) == 0,
{
    lemma_settled_nonzeros(s);
    lemma_nonzeros_positive(s);
    let t = nonzeros(s);
    assert forall|i: int, j: int|
        0 <= i < t.len() && 0 <= j < t.len() && j == i + 1 implies t[i] != t[j] by {
        assert(t[i] == s[i] && t[j] == s[j]);
        assert(t[i] != 0);
    }
    lemma_merge_unmergeable(t);
    assert(pad4(t) =~= s);
}

/// A board whose every logical row under `d` is settled is left unchanged
/// by a further move towards `d`, and that move's score delta is zero.
pub proof fn lemma_settled_board_shift_noop(b: Seq<u8>, d: Direction)
    requires
        b.len() == 16,
        forall|r: int| 0 <= r < 4 ==> row_settled(#[trigger] logical_row(b, r, d)),
    ensures
        shift_board(b, d) == b,
        shift_points(b, d) == 0,
{
    lemma_settled_row_shift_noop(logical_row(b, 0, d));
    lemma_settled_row_shift_noop(logical_row(b, 1, d));
    lemma_settled_row_shift_noop(logical_row(b, 2, d));
    lemma_settled_row_shift_noop(logical_row(b, 3, d));
    assert forall|p: int| 0 <= p < 16 implies shift_board(b, d)[p] == b[p] by {
        lemma_translate_onto(p, d);
        let r = row_of(p, d);
        let c = col_of(p, d);
        assert(shift_board(b, d)[p] == moved_row(b, r, d)[c]);
        assert(moved_row(b, r, d) == logical_row(b, r, d));
        assert(logical_row(b, r, d)[c] == b[translate_spec(r, c, d)]);
    }
    assert(shift_board(b, d) =~= b);
    assert(rows_points(b, d, 0) == 0);
    assert(rows_points(b, d, 1) == 0);
    assert(rows_points(b, d, 2) == 0);
    assert(rows_points(b, d, 3) == 0);
    assert(rows_points(b, d, 4) == 0);
}

} // verus!
