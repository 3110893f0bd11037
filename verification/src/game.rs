//! The board and the transition engine: shifting, merging, scoring and
//! spawning of tiles.
//!
//! A board holds 16 cells in row-major order (index `x + y*4`); a cell value
//! `n > 0` stands for the tile `2^n` and `0` for an empty cell.  A move
//! condenses each line toward its leading end, merges equal neighbours once,
//! and pads the line with empties; an effective move then spawns one random
//! tile and increments the move counter.

use vstd::prelude::*;

use crate::rng::rand_below;
use crate::sat_add;
use crate::sat_add_spec;

verus! {

/// One of the four directions a move can take.
#[derive(Clone, Copy, PartialEq, Eq, Hash, Debug, Structural)]
pub enum Move {
    Up,
    Down,
    Left,
    Right,
}

/// The position of a move in the declaration order, which is also the
/// tie-break order used when comparing move scores.
pub open spec fn move_index(m: Move) -> int {
    match m {
        Move::Up => 0,
        Move::Down => 1,
        Move::Left => 2,
        Move::Right => 3,
    }
}

/// The four moves in declaration order.
pub fn all_moves() -> (r: [Move; 4])
    ensures
        r@ =~= seq![Move::Up, Move::Down, Move::Left, Move::Right],
{
    [Move::Up, Move::Down, Move::Left, Move::Right]
}

// ---------------------------------------------------------------------------
// Specification of one line (a row or a column, 4 cells).
// ---------------------------------------------------------------------------

/// The exponent written by a merge: one more than the merged pair's value,
/// saturating at the cell type's maximum.
pub open spec fn inc_exp(v: u8) -> u8 {
    if v == 255 {
        255u8
    } else {
        (v + 1) as u8
    }
}

/// `2^e`, saturating at `usize::MAX`; the score a merge of two `2^(e-1)`
/// tiles earns.
pub open spec fn pow2_capped(e: nat) -> int
    decreases e,
{
    if e == 0 {
        1
    } else {
        let d = 2 * pow2_capped((e - 1) as nat);
        if d > usize::MAX as int {
            usize::MAX as int
        } else {
            d
        }
    }
}

/// Up to `2^31` — in range on every machine — the capped power of two is
/// the power of two itself.
pub proof fn lemma_pow2_capped_eq(e: nat)
    requires
        e <= 31,
    ensures
        pow2_capped(e) == vstd::arithmetic::power2::pow2(e),
    decreases e,
{
    vstd::arithmetic::power2::lemma2_to64();
    if e > 0 {
        lemma_pow2_capped_eq((e - 1) as nat);
        vstd::arithmetic::power2::lemma_pow2_unfold(e);
        if e < 31 {
            vstd::arithmetic::power2::lemma_pow2_strictly_increases(e, 31);
        }
    }
}

/// The non-empty cells of a line, in order.
pub open spec fn condense(s: Seq<u8>) -> Seq<u8>
    decreases s.len(),
{
    if s.len() == 0 {
        Seq::empty()
    } else if s[0] == 0 {
        condense(s.skip(1))
    } else {
        seq![s[0]] + condense(s.skip(1))
    }
}

/// A single left-to-right merge pass: equal adjacent non-empty cells merge
/// into one cell holding the next exponent, and a merged cell takes no part
/// in a further merge.  Empty cells are dropped.
pub open spec fn merge_pass(s: Seq<u8>) -> Seq<u8>
    decreases s.len(),
{
    if s.len() == 0 {
        Seq::empty()
    } else if s[0] == 0 {
        merge_pass(s.skip(1))
    } else if s.len() >= 2 && s[0] == s[1] {
        seq![inc_exp(s[0])] + merge_pass(s.skip(2))
    } else {
        seq![s[0]] + merge_pass(s.skip(1))
    }
}

/// The score earned by the merge pass over `s`: `2^(v+1)` for every merged
/// pair of `v`-cells.
pub open spec fn merge_gain(s: Seq<u8>) -> int
    decreases s.len(),
{
    if s.len() == 0 {
        0
    } else if s[0] == 0 {
        merge_gain(s.skip(1))
    } else if s.len() >= 2 && s[0] == s[1] {
        pow2_capped(inc_exp(s[0]) as nat) + merge_gain(s.skip(2))
    } else {
        merge_gain(s.skip(1))
    }
}

/// Pads a line of at most 4 cells with trailing empties up to length 4.
pub open spec fn pad4(s: Seq<u8>) -> Seq<u8> {
    if s.len() >= 4 {
        s
    } else {
        s + Seq::new((4 - s.len()) as nat, |i: int| 0u8)
    }
}

/// The index of the first empty cell, or the line's length if none.
pub open spec fn first_zero(s: Seq<u8>) -> int
    decreases s.len(),
{
    if s.len() == 0 {
        0
    } else if s[0] == 0 {
        0
    } else {
        1 + first_zero(s.skip(1))
    }
}

/// Rotates the line so that the cells from the first empty onward come
/// first; on a line with empties only at the tail this moves the empties to
/// the front.  A line without empties is unchanged.
pub open spec fn rot_zero(s: Seq<u8>) -> Seq<u8> {
    if !s.contains(0u8) {
        s
    } else {
        s.skip(first_zero(s)) + s.take(first_zero(s))
    }
}

/// One line after condensing, merging and re-padding toward index 0.
pub open spec fn shift_line(line: Seq<u8>) -> Seq<u8> {
    pad4(merge_pass(condense(line)))
}

/// One line after a shift: toward index 0, or away from it when `reversed`
/// (the Right and Down cases).
#[verifier::opaque]
pub open spec fn line_result(line: Seq<u8>, reversed: bool) -> Seq<u8> {
    if reversed {
        rot_zero(shift_line(line))
    } else {
        shift_line(line)
    }
}

// ---------------------------------------------------------------------------
// Specification of the whole board.
// ---------------------------------------------------------------------------

/// Row `y` of a 16-cell board, left to right.
pub open spec fn row_of(cells: Seq<u8>, y: int) -> Seq<u8> {
    seq![cells[y * 4], cells[y * 4 + 1], cells[y * 4 + 2], cells[y * 4 + 3]]
}

/// Column `x` of a 16-cell board, top to bottom.
pub open spec fn col_of(cells: Seq<u8>, x: int) -> Seq<u8> {
    seq![cells[x], cells[x + 4], cells[x + 8], cells[x + 12]]
}

/// Whether a move's lines run away from index 0.
pub open spec fn move_reversed(m: Move) -> bool {
    m == Move::Right || m == Move::Down
}

/// Whether a move works on columns rather than rows.
pub open spec fn move_on_cols(m: Move) -> bool {
    m == Move::Up || m == Move::Down
}

/// The cells after shifting (no spawn, no move counter): every line is
/// replaced by its shifted form, columns written back as columns.
pub open spec fn shift_cells(cells: Seq<u8>, m: Move) -> Seq<u8> {
    if move_on_cols(m) {
        let c0 = line_result(col_of(cells, 0), move_reversed(m));
        let c1 = line_result(col_of(cells, 1), move_reversed(m));
        let c2 = line_result(col_of(cells, 2), move_reversed(m));
        let c3 = line_result(col_of(cells, 3), move_reversed(m));
        seq![
            c0[0],
            c1[0],
            c2[0],
            c3[0],
            c0[1],
            c1[1],
            c2[1],
            c3[1],
            c0[2],
            c1[2],
            c2[2],
            c3[2],
            c0[3],
            c1[3],
            c2[3],
            c3[3],
        ]
    } else {
        let r0 = line_result(row_of(cells, 0), move_reversed(m));
        let r1 = line_result(row_of(cells, 1), move_reversed(m));
        let r2 = line_result(row_of(cells, 2), move_reversed(m));
        let r3 = line_result(row_of(cells, 3), move_reversed(m));
        seq![
            r0[0],
            r0[1],
            r0[2],
            r0[3],
            r1[0],
            r1[1],
            r1[2],
            r1[3],
            r2[0],
            r2[1],
            r2[2],
            r2[3],
            r3[0],
            r3[1],
            r3[2],
            r3[3],
        ]
    }
}

/// The total score a shift earns: the merge gains of its four lines.
pub open spec fn shift_gain(cells: Seq<u8>, m: Move) -> int {
    if move_on_cols(m) {
        merge_gain(condense(col_of(cells, 0))) + merge_gain(condense(col_of(cells, 1)))
            + merge_gain(condense(col_of(cells, 2))) + merge_gain(condense(col_of(cells, 3)))
    } else {
        merge_gain(condense(row_of(cells, 0))) + merge_gain(condense(row_of(cells, 1)))
            + merge_gain(condense(row_of(cells, 2))) + merge_gain(condense(row_of(cells, 3)))
    }
}

/// Whether applying `m` would change the cells.
pub open spec fn move_changes(cells: Seq<u8>, m: Move) -> bool {
    shift_cells(cells, m) != cells
}

/// Whether any of the four moves would change the board.
pub open spec fn has_move(cells: Seq<u8>) -> bool {
    exists|m: Move| move_changes(cells, m)
}

/// How many cells of the board are empty.
pub open spec fn empty_count(cells: Seq<u8>) -> int
    decreases cells.len(),
{
    if cells.len() == 0 {
        0
    } else {
        (if cells[0] == 0 {
            1int
        } else {
            0int
        }) + empty_count(cells.skip(1))
    }
}

/// Line `j` of the board: a column when `on_cols`, a row otherwise.
pub open spec fn line_of(cells: Seq<u8>, j: int, on_cols: bool) -> Seq<u8> {
    if on_cols {
        col_of(cells, j)
    } else {
        row_of(cells, j)
    }
}

/// Whether every cell is occupied.
pub open spec fn board_full(cells: Seq<u8>) -> bool {
    forall|i: int| 0 <= i < 16 ==> cells[i] != 0
}

/// No two adjacent cells of a 4-cell line are equal.
pub open spec fn no_pair4(s: Seq<u8>) -> bool {
    s[0] != s[1] && s[1] != s[2] && s[2] != s[3]
}

/// The game is over when the board is full and no condensed row or column
/// holds two adjacent equal cells.
pub open spec fn game_over_spec(cells: Seq<u8>) -> bool {
    board_full(cells) && (forall|y: int|
        0 <= y < 4 ==> no_pair4(pad4(condense(row_of(cells, y))))) && (forall|x: int|
        0 <= x < 4 ==> no_pair4(pad4(condense(col_of(cells, x)))))
}

/// The 16 cells of the empty board.
pub open spec fn empty_cells16() -> Seq<u8> {
    Seq::new(16, |i: int| 0u8)
}

/// Relates a board to the board after one random tile spawn: one empty cell
/// now holds exponent 1 or 2; a full board is unchanged.
pub open spec fn spawn_result(before: Seq<u8>, after: Seq<u8>) -> bool {
    if exists|i: int| 0 <= i < 16 && before[i] == 0 {
        exists|i: int|
            0 <= i < 16 && before[i] == 0 && (after == before.update(i, 1u8) || after
                == before.update(i, 2u8))
    } else {
        after == before
    }
}

// ---------------------------------------------------------------------------
// Facts about the line operations.
// ---------------------------------------------------------------------------

/// `2^e` is at least 1, even under the cap.
pub proof fn lemma_pow2_capped_pos(e: nat)
    ensures
        pow2_capped(e) >= 1,
    decreases e,
{
    if e > 0 {
        lemma_pow2_capped_pos((e - 1) as nat);
    }
}

/// Condensing distributes over concatenation.
pub proof fn lemma_condense_concat(a: Seq<u8>, b: Seq<u8>)
    ensures
        condense(a + b) == condense(a) + condense(b),
    decreases a.len(),
{
    if a.len() == 0 {
        assert(a + b =~= b);
        assert(condense(a) + condense(b) =~= condense(b));
    } else {
        assert((a + b).skip(1) =~= a.skip(1) + b);
        lemma_condense_concat(a.skip(1), b);
        assert((a + b)[0] == a[0]);
        if a[0] != 0 {
            assert(seq![a[0]] + (condense(a.skip(1)) + condense(b)) =~= (seq![a[0]] + condense(
                a.skip(1),
            )) + condense(b));
        }
    }
}

/// Condensing never lengthens a line.
pub proof fn lemma_condense_len(s: Seq<u8>)
    ensures
        condense(s).len() <= s.len(),
    decreases s.len(),
{
    if s.len() > 0 {
        lemma_condense_len(s.skip(1));
    }
}

/// A one-cell line condenses to itself or to nothing.
pub proof fn lemma_condense_singleton(x: u8)
    ensures
        condense(seq![x]) == if x == 0 {
            Seq::<u8>::empty()
        } else {
            seq![x]
        },
{
    assert(seq![x].skip(1) =~= Seq::<u8>::empty());
    assert(condense(Seq::<u8>::empty()) == Seq::<u8>::empty());
    assert(condense(seq![x].skip(1)) == Seq::<u8>::empty());
    if x != 0 {
        assert(seq![x] + Seq::<u8>::empty() =~= seq![x]);
    }
}

/// Every condensed cell is occupied.
pub proof fn lemma_condense_nonzero(s: Seq<u8>)
    ensures
        forall|i: int| 0 <= i < condense(s).len() ==> condense(s)[i] != 0,
    decreases s.len(),
{
    if s.len() > 0 {
        lemma_condense_nonzero(s.skip(1));
        if s[0] != 0 {
            assert(condense(s) == seq![s[0]] + condense(s.skip(1)));
            assert forall|i: int| 0 <= i < condense(s).len() implies condense(s)[i] != 0 by {
                if i > 0 {
                    assert(condense(s)[i] == condense(s.skip(1))[i - 1]);
                } else {
                    assert(condense(s)[0] == s[0]);
                }
            }
        } else {
            assert(condense(s) == condense(s.skip(1)));
            assert forall|i: int| 0 <= i < condense(s).len() implies condense(s)[i] != 0 by {
                assert(condense(s)[i] == condense(s.skip(1))[i]);
            }
        }
    }
}

/// A line of empties condenses to nothing.
pub proof fn lemma_condense_zeros(s: Seq<u8>)
    requires
        forall|i: int| 0 <= i < s.len() ==> s[i] == 0,
    ensures
        condense(s) == Seq::<u8>::empty(),
    decreases s.len(),
{
    if s.len() > 0 {
        assert(s[0] == 0);
        lemma_condense_zeros(s.skip(1));
    }
}

/// A line without empties is already condensed.
pub proof fn lemma_condense_id(s: Seq<u8>)
    requires
        forall|i: int| 0 <= i < s.len() ==> s[i] != 0,
    ensures
        condense(s) == s,
    decreases s.len(),
{
    if s.len() > 0 {
        lemma_condense_id(s.skip(1));
        assert(seq![s[0]] + s.skip(1) =~= s);
    }
}

/// The merge pass ignores a tail of empties.
pub proof fn lemma_merge_zeros_tail(s: Seq<u8>, z: Seq<u8>)
    requires
        forall|i: int| 0 <= i < z.len() ==> z[i] == 0,
    ensures
        merge_pass(s + z) == merge_pass(s),
        merge_gain(s + z) == merge_gain(s),
    decreases s.len(), z.len(),
{
    if s.len() == 0 {
        assert(s + z =~= z);
        if z.len() > 0 {
            assert(z[0] == 0);
            assert(z.skip(1) =~= Seq::<u8>::empty() + z.skip(1));
            lemma_merge_zeros_tail(Seq::<u8>::empty(), z.skip(1));
            assert(merge_pass(z) == merge_pass(z.skip(1)));
            assert(merge_gain(z) == merge_gain(z.skip(1)));
        }
    } else {
        assert((s + z)[0] == s[0]);
        if s[0] == 0 {
            assert((s + z).skip(1) =~= s.skip(1) + z);
            lemma_merge_zeros_tail(s.skip(1), z);
        } else if s.len() >= 2 && s[0] == s[1] {
            assert((s + z)[1] == s[1]);
            assert((s + z).skip(2) =~= s.skip(2) + z);
            lemma_merge_zeros_tail(s.skip(2), z);
        } else {
            if s.len() >= 2 {
                assert((s + z)[1] == s[1]);
            } else if z.len() >= 1 {
                assert((s + z)[1] == z[0]);
                assert(z[0] == 0);
            }
            assert((s + z).skip(1) =~= s.skip(1) + z);
            lemma_merge_zeros_tail(s.skip(1), z);
        }
    }
}

/// The merge pass can only shorten the condensed line, it earns a positive
/// score exactly when it shortens it, and it never earns a negative score.
pub proof fn lemma_merge_counts(s: Seq<u8>)
    ensures
        merge_pass(s).len() <= condense(s).len(),
        merge_gain(s) >= 0,
        (merge_gain(s) == 0) == (merge_pass(s).len() == condense(s).len()),
    decreases s.len(),
{
    if s.len() == 0 {
    } else if s[0] == 0 {
        lemma_merge_counts(s.skip(1));
    } else if s.len() >= 2 && s[0] == s[1] {
        lemma_merge_counts(s.skip(2));
        lemma_pow2_capped_pos(inc_exp(s[0]) as nat);
        assert(s.skip(1)[0] == s[1]);
        assert(s.skip(1).skip(1) =~= s.skip(2));
        assert(condense(s) == seq![s[0]] + condense(s.skip(1)));
        assert(condense(s.skip(1)) == seq![s[1]] + condense(s.skip(2)));
        lemma_condense_len(s.skip(2));
    } else {
        lemma_merge_counts(s.skip(1));
    }
}

/// Every cell the merge pass emits is occupied.
pub proof fn lemma_merge_nonzero(s: Seq<u8>)
    ensures
        forall|i: int| 0 <= i < merge_pass(s).len() ==> merge_pass(s)[i] != 0,
    decreases s.len(),
{
    if s.len() == 0 {
    } else if s[0] == 0 {
        lemma_merge_nonzero(s.skip(1));
    } else if s.len() >= 2 && s[0] == s[1] {
        lemma_merge_nonzero(s.skip(2));
        assert(merge_pass(s) == seq![inc_exp(s[0])] + merge_pass(s.skip(2)));
        assert forall|i: int| 0 <= i < merge_pass(s).len() implies merge_pass(s)[i] != 0 by {
            if i > 0 {
                assert(merge_pass(s)[i] == merge_pass(s.skip(2))[i - 1]);
            } else {
                assert(inc_exp(s[0]) != 0);
            }
        }
    } else {
        lemma_merge_nonzero(s.skip(1));
        assert(merge_pass(s) == seq![s[0]] + merge_pass(s.skip(1)));
        assert forall|i: int| 0 <= i < merge_pass(s).len() implies merge_pass(s)[i] != 0 by {
            if i > 0 {
                assert(merge_pass(s)[i] == merge_pass(s.skip(1))[i - 1]);
            }
        }
    }
}

/// Padding a condensed line with empties changes neither the merge pass nor
/// its gain.
pub proof fn lemma_shift_line_pad(line: Seq<u8>)
    ensures
        merge_pass(pad4(condense(line))) == merge_pass(condense(line)),
        merge_gain(pad4(condense(line))) == merge_gain(condense(line)),
{
    let c = condense(line);
    if c.len() < 4 {
        lemma_merge_zeros_tail(c, Seq::new((4 - c.len()) as nat, |i: int| 0u8));
    }
}

/// The first empty cell comes no later than the end of the line.
pub proof fn lemma_first_zero_range(s: Seq<u8>)
    ensures
        0 <= first_zero(s) <= s.len(),
    decreases s.len(),
{
    if s.len() > 0 && s[0] != 0 {
        lemma_first_zero_range(s.skip(1));
    }
}

/// A shifted line still holds 4 cells.
pub proof fn lemma_line_result_len(line: Seq<u8>, reversed: bool)
    requires
        line.len() == 4,
    ensures
        line_result(line, reversed).len() == 4,
{
    reveal(line_result);
    let c = condense(line);
    let mp = merge_pass(c);
    lemma_merge_counts(c);
    lemma_condense_len(line);
    lemma_condense_nonzero(line);
    lemma_condense_id(c);
    let p = pad4(mp);
    if reversed && p.contains(0u8) {
        lemma_first_zero_range(p);
    }
}

/// Condensing a rotated line keeps the number of occupied cells.
proof fn lemma_condense_rot_len(s: Seq<u8>)
    ensures
        condense(rot_zero(s)).len() == condense(s).len(),
{
    if s.contains(0u8) {
        let p = first_zero(s);
        lemma_first_zero_range(s);
        assert(s =~= s.take(p) + s.skip(p));
        lemma_condense_concat(s.take(p), s.skip(p));
        lemma_condense_concat(s.skip(p), s.take(p));
    }
}

/// A line the shift leaves unchanged earned no score.
proof fn lemma_line_unchanged_gain(line: Seq<u8>, reversed: bool)
    requires
        line.len() == 4,
        line_result(line, reversed) == line,
    ensures
        merge_gain(condense(line)) == 0,
{
    reveal(line_result);
    let c = condense(line);
    let mp = merge_pass(c);
    lemma_merge_counts(c);
    lemma_condense_len(line);
    lemma_condense_nonzero(line);
    lemma_condense_id(c);
    lemma_merge_nonzero(c);
    // condensing the padded merge result gives the merge result back
    lemma_condense_id(mp);
    let p = pad4(mp);
    if mp.len() < 4 {
        let z = Seq::new((4 - mp.len()) as nat, |i: int| 0u8);
        lemma_condense_concat(mp, z);
        lemma_condense_zeros(z);
        assert(condense(p) =~= mp);
    } else {
        assert(condense(p) =~= mp);
    }
    if reversed {
        lemma_condense_rot_len(p);
        assert(condense(line).len() == mp.len());
    } else {
        assert(condense(line).len() == mp.len());
    }
}

/// Every line of a change-free shift is itself unchanged.
proof fn lemma_unchanged_lines(cells: Seq<u8>, m: Move)
    requires
        cells.len() == 16,
        shift_cells(cells, m) == cells,
    ensures
        forall|j: int|
            0 <= j < 4 ==> line_result(
                #[trigger] line_of(cells, j, move_on_cols(m)),
                move_reversed(m),
            ) == line_of(cells, j, move_on_cols(m)),
{
    let rev = move_reversed(m);
    if move_on_cols(m) {
        let c0 = line_result(col_of(cells, 0), rev);
        let c1 = line_result(col_of(cells, 1), rev);
        let c2 = line_result(col_of(cells, 2), rev);
        let c3 = line_result(col_of(cells, 3), rev);
        lemma_line_result_len(col_of(cells, 0), rev);
        lemma_line_result_len(col_of(cells, 1), rev);
        lemma_line_result_len(col_of(cells, 2), rev);
        lemma_line_result_len(col_of(cells, 3), rev);
        assert(cells[0] == c0[0] && cells[4] == c0[1] && cells[8] == c0[2] && cells[12] == c0[3]);
        assert(cells[1] == c1[0] && cells[5] == c1[1] && cells[9] == c1[2] && cells[13] == c1[3]);
        assert(cells[2] == c2[0] && cells[6] == c2[1] && cells[10] == c2[2] && cells[14] == c2[3]);
        assert(cells[3] == c3[0] && cells[7] == c3[1] && cells[11] == c3[2] && cells[15] == c3[3]);
        assert(col_of(cells, 0) =~= c0);
        assert(col_of(cells, 1) =~= c1);
        assert(col_of(cells, 2) =~= c2);
        assert(col_of(cells, 3) =~= c3);
    } else {
        let r0 = line_result(row_of(cells, 0), rev);
        let r1 = line_result(row_of(cells, 1), rev);
        let r2 = line_result(row_of(cells, 2), rev);
        let r3 = line_result(row_of(cells, 3), rev);
        lemma_line_result_len(row_of(cells, 0), rev);
        lemma_line_result_len(row_of(cells, 1), rev);
        lemma_line_result_len(row_of(cells, 2), rev);
        lemma_line_result_len(row_of(cells, 3), rev);
        assert(cells[0] == r0[0] && cells[1] == r0[1] && cells[2] == r0[2] && cells[3] == r0[3]);
        assert(cells[4] == r1[0] && cells[5] == r1[1] && cells[6] == r1[2] && cells[7] == r1[3]);
        assert(cells[8] == r2[0] && cells[9] == r2[1] && cells[10] == r2[2] && cells[11] == r2[3]);
        assert(cells[12] == r3[0] && cells[13] == r3[1] && cells[14] == r3[2] && cells[15] == r3[3]);
        assert(row_of(cells, 0) =~= r0);
        assert(row_of(cells, 1) =~= r1);
        assert(row_of(cells, 2) =~= r2);
        assert(row_of(cells, 3) =~= r3);
    }
    assert forall|j: int| 0 <= j < 4 implies line_result(
        #[trigger] line_of(cells, j, move_on_cols(m)),
        rev,
    ) == line_of(cells, j, move_on_cols(m)) by {
        assert(j == 0 || j == 1 || j == 2 || j == 3);
    }
}

/// A shift that changes no cell earns no score.
pub proof fn lemma_unchanged_no_gain(cells: Seq<u8>, m: Move)
    requires
        cells.len() == 16,
        shift_cells(cells, m) == cells,
    ensures
        shift_gain(cells, m) == 0,
{
    lemma_unchanged_lines(cells, m);
    let on_cols = move_on_cols(m);
    assert(line_of(cells, 0, on_cols) == if on_cols {
        col_of(cells, 0)
    } else {
        row_of(cells, 0)
    });
    lemma_line_unchanged_gain(line_of(cells, 0, on_cols), move_reversed(m));
    lemma_line_unchanged_gain(line_of(cells, 1, on_cols), move_reversed(m));
    lemma_line_unchanged_gain(line_of(cells, 2, on_cols), move_reversed(m));
    lemma_line_unchanged_gain(line_of(cells, 3, on_cols), move_reversed(m));
}

/// A merge pass that earns nothing only condenses.
pub proof fn lemma_merge_gain_zero_id(s: Seq<u8>)
    requires
        merge_gain(s) == 0,
    ensures
        merge_pass(s) == condense(s),
    decreases s.len(),
{
    if s.len() == 0 {
    } else if s[0] == 0 {
        lemma_merge_gain_zero_id(s.skip(1));
    } else if s.len() >= 2 && s[0] == s[1] {
        lemma_pow2_capped_pos(inc_exp(s[0]) as nat);
        lemma_merge_counts(s.skip(2));
    } else {
        lemma_merge_gain_zero_id(s.skip(1));
    }
}

/// Condensing undoes the padding of an all-occupied line.
proof fn lemma_condense_pad_id(mp: Seq<u8>)
    requires
        forall|i: int| 0 <= i < mp.len() ==> mp[i] != 0,
        mp.len() <= 4,
    ensures
        condense(pad4(mp)) == mp,
{
    lemma_condense_id(mp);
    if mp.len() < 4 {
        let z = Seq::new((4 - mp.len()) as nat, |i: int| 0u8);
        lemma_condense_concat(mp, z);
        lemma_condense_zeros(z);
        assert(condense(pad4(mp)) =~= mp);
    } else {
        assert(pad4(mp) == mp);
    }
}

/// In an occupied line followed by empties, the first empty comes right
/// after the occupied part.
proof fn lemma_first_zero_compact(a: Seq<u8>, z: Seq<u8>)
    requires
        forall|i: int| 0 <= i < a.len() ==> a[i] != 0,
        forall|i: int| 0 <= i < z.len() ==> z[i] == 0,
    ensures
        first_zero(a + z) == a.len(),
    decreases a.len(),
{
    if a.len() == 0 {
        assert(a + z =~= z);
        if z.len() > 0 {
            assert(z[0] == 0);
        }
    } else {
        assert((a + z)[0] == a[0]);
        assert((a + z).skip(1) =~= a.skip(1) + z);
        lemma_first_zero_compact(a.skip(1), z);
    }
}

/// A forward-shifted line that cannot merge further does not move again.
proof fn lemma_compact_stable_fwd(mp: Seq<u8>)
    requires
        forall|i: int| 0 <= i < mp.len() ==> mp[i] != 0,
        mp.len() <= 4,
        merge_gain(mp) == 0,
    ensures
        line_result(pad4(mp), false) == pad4(mp),
{
    reveal(line_result);
    lemma_condense_pad_id(mp);
    lemma_merge_gain_zero_id(mp);
    lemma_condense_id(mp);
}

/// A reverse-shifted line that cannot merge further does not move again.
proof fn lemma_compact_stable_rev(mp: Seq<u8>)
    requires
        forall|i: int| 0 <= i < mp.len() ==> mp[i] != 0,
        mp.len() <= 4,
        merge_gain(condense(rot_zero(pad4(mp)))) == 0,
    ensures
        line_result(rot_zero(pad4(mp)), true) == rot_zero(pad4(mp)),
{
    reveal(line_result);
    let y = pad4(mp);
    let line = rot_zero(y);
    lemma_condense_pad_id(mp);
    lemma_condense_id(mp);
    if mp.len() == 4 {
        assert(y == mp);
        assert forall|i: int| 0 <= i < 4 implies y[i] != 0 by {}
        assert(!y.contains(0u8));
        assert(line == y);
        assert(condense(line) == mp);
        lemma_merge_gain_zero_id(mp);
        assert(line_result(line, true) == rot_zero(pad4(merge_pass(condense(line)))));
        assert(pad4(merge_pass(condense(line))) == y);
    } else {
        let z = Seq::new((4 - mp.len()) as nat, |i: int| 0u8);
        assert(y == mp + z);
        if mp.len() == 0 {
            assert(y =~= z);
            assert(y[0] == 0);
            assert(y.contains(0u8));
            lemma_first_zero_compact(mp, z);
            assert(first_zero(y) == 0);
            assert(line =~= y);
            assert(condense(line) == condense(y));
            assert(condense(y) =~= mp) by {
                lemma_condense_zeros(z);
                lemma_condense_concat(mp, z);
            }
            lemma_merge_gain_zero_id(condense(line));
            assert(merge_pass(condense(line)) == mp);
            assert(pad4(mp) == y);
            assert(rot_zero(pad4(merge_pass(condense(line)))) == line);
        } else {
            lemma_first_zero_compact(mp, z);
            assert(first_zero(y) == mp.len());
            assert(y[mp.len() as int] == 0);
            assert(y.contains(0u8));
            assert(y.skip(mp.len() as int) =~= z);
            assert(y.take(mp.len() as int) =~= mp);
            assert(line == z + mp);
            // condensing the rotation gives the occupied part back
            lemma_condense_concat(z, mp);
            lemma_condense_zeros(z);
            assert(condense(line) =~= mp);
            lemma_merge_gain_zero_id(mp);
            assert(merge_pass(condense(line)) == mp);
            assert(line_result(line, true) == rot_zero(pad4(mp)));
            assert(rot_zero(pad4(mp)) == line);
        }
    }
}

/// A full board whose condensed lines hold no adjacent equal cells cannot
/// be changed by any move: every direction's shift returns it untouched.
pub proof fn lemma_game_over_stuck(cells: Seq<u8>)
    requires
        cells.len() == 16,
        game_over_spec(cells),
    ensures
        forall|m: Move| #[trigger] shift_cells(cells, m) == cells,
{
    assert forall|m: Move| #[trigger] shift_cells(cells, m) == cells by {
        lemma_game_over_stuck_one(cells, m);
    }
}

/// A merge pass leaves a full line without adjacent equal cells untouched.
proof fn lemma_merge_pass_full_stuck(s: Seq<u8>)
    requires
        s.len() == 4,
        forall|i: int| 0 <= i < 4 ==> s[i] != 0,
        no_pair4(s),
    ensures
        merge_pass(s) == s,
        merge_gain(s) == 0,
{
    assert(s.skip(1)[0] == s[1]);
    assert(s.skip(1)[1] == s[2]);
    assert(s.skip(1).skip(1) =~= s.skip(2));
    assert(s.skip(2)[0] == s[2]);
    assert(s.skip(2)[1] == s[3]);
    assert(s.skip(2).skip(1) =~= s.skip(3));
    assert(s.skip(3)[0] == s[3]);
    assert(s.skip(3).skip(1) =~= s.skip(4));
    assert(s.skip(4) =~= Seq::<u8>::empty());
    assert(merge_pass(Seq::<u8>::empty()) == Seq::<u8>::empty());
    assert(merge_gain(Seq::<u8>::empty()) == 0);
    assert(seq![s[3]] + Seq::<u8>::empty() =~= seq![s[3]]);
    assert(merge_pass(s.skip(3)) == seq![s[3]]);
    assert(merge_pass(s.skip(2)) == seq![s[2]] + merge_pass(s.skip(3)));
    assert(merge_pass(s.skip(1)) == seq![s[1]] + merge_pass(s.skip(2)));
    assert(merge_pass(s) == seq![s[0]] + merge_pass(s.skip(1)));
    assert(merge_pass(s) =~= s);
    assert(merge_gain(s.skip(3)) == 0);
    assert(merge_gain(s.skip(2)) == 0);
    assert(merge_gain(s.skip(1)) == 0);
    assert(merge_gain(s) == 0);
}

/// One direction of [`lemma_game_over_stuck`].
proof fn lemma_game_over_stuck_one(cells: Seq<u8>, m: Move)
    requires
        cells.len() == 16,
        game_over_spec(cells),
    ensures
        shift_cells(cells, m) == cells,
{
    reveal(line_result);
    let on_cols = move_on_cols(m);
    let rev = move_reversed(m);
    assert forall|j: int| 0 <= j < 4 implies line_result(
        #[trigger] line_of(cells, j, on_cols),
        rev,
    ) == line_of(cells, j, on_cols) by {
        let line = line_of(cells, j, on_cols);
        assert(line.len() == 4);
        assert forall|t: int| 0 <= t < 4 implies line[t] != 0 by {
            assert(board_full(cells));
        }
        lemma_condense_id(line);
        assert(pad4(condense(line)) == line);
        assert(no_pair4(line));
        lemma_merge_pass_full_stuck(line);
        assert(shift_line(line) == line);
        if rev {
            assert(!line.contains(0u8));
            assert(rot_zero(line) == line);
        }
    }
    assert(line_of(cells, 0, on_cols) == if on_cols {
        col_of(cells, 0)
    } else {
        row_of(cells, 0)
    });
    assert(line_of(cells, 1, on_cols) == if on_cols {
        col_of(cells, 1)
    } else {
        row_of(cells, 1)
    });
    assert(line_of(cells, 2, on_cols) == if on_cols {
        col_of(cells, 2)
    } else {
        row_of(cells, 2)
    });
    assert(line_of(cells, 3, on_cols) == if on_cols {
        col_of(cells, 3)
    } else {
        row_of(cells, 3)
    });
    assert(shift_cells(cells, m) =~= cells);
}

/// Shifting is stable: once a board has been shifted, shifting it again in
/// the same direction changes nothing, provided the shifted board offers no
/// new merge along that direction's lines (the one way a second pass can
/// act; a line such as two equal tiles created by the first merge does
/// merge again).
pub proof fn lemma_shift_stable(cells: Seq<u8>, m: Move)
    requires
        cells.len() == 16,
        forall|j: int|
            0 <= j < 4 ==> merge_gain(
                condense(#[trigger] line_of(shift_cells(cells, m), j, move_on_cols(m))),
            ) == 0,
    ensures
        shift_cells(shift_cells(cells, m), m) == shift_cells(cells, m),
{
    reveal(line_result);
    let on_cols = move_on_cols(m);
    let rev = move_reversed(m);
    let s2 = shift_cells(cells, m);
    assert(s2.len() == 16);
    assert forall|j: int| 0 <= j < 4 implies #[trigger] line_of(s2, j, on_cols) == line_result(
        line_of(cells, j, on_cols),
        rev,
    ) by {
        lemma_line_result_len(line_of(cells, 0, on_cols), rev);
        lemma_line_result_len(line_of(cells, 1, on_cols), rev);
        lemma_line_result_len(line_of(cells, 2, on_cols), rev);
        lemma_line_result_len(line_of(cells, 3, on_cols), rev);
        assert(j == 0 || j == 1 || j == 2 || j == 3);
        assert(line_of(s2, j, on_cols) =~= line_result(line_of(cells, j, on_cols), rev));
    }
    assert forall|j: int| 0 <= j < 4 implies line_result(
        #[trigger] line_of(s2, j, on_cols),
        rev,
    ) == line_of(s2, j, on_cols) by {
        let line = line_of(cells, j, on_cols);
        let mp = merge_pass(condense(line));
        lemma_merge_counts(condense(line));
        lemma_condense_len(line);
        lemma_condense_nonzero(line);
        lemma_condense_id(condense(line));
        lemma_merge_nonzero(condense(line));
        assert(mp.len() <= 4);
        assert(merge_gain(condense(line_of(s2, j, on_cols))) == 0);
        if rev {
            assert(line_of(s2, j, on_cols) == rot_zero(pad4(mp)));
            lemma_compact_stable_rev(mp);
        } else {
            assert(line_of(s2, j, on_cols) == pad4(mp));
            lemma_condense_pad_id(mp);
            lemma_compact_stable_fwd(mp);
        }
    }
    assert(line_result(line_of(s2, 0, on_cols), rev) == line_of(s2, 0, on_cols));
    assert(line_result(line_of(s2, 1, on_cols), rev) == line_of(s2, 1, on_cols));
    assert(line_result(line_of(s2, 2, on_cols), rev) == line_of(s2, 2, on_cols));
    assert(line_result(line_of(s2, 3, on_cols), rev) == line_of(s2, 3, on_cols));
    assert(shift_cells(s2, m) =~= s2);
}

/// A line whose condensed form is no shorter has no empties at all.
proof fn lemma_condense_full(s: Seq<u8>)
    requires
        condense(s).len() == s.len(),
    ensures
        condense(s) == s,
        forall|i: int| 0 <= i < s.len() ==> s[i] != 0,
    decreases s.len(),
{
    if s.len() > 0 {
        lemma_condense_len(s.skip(1));
        if s[0] != 0 {
            lemma_condense_full(s.skip(1));
            assert(seq![s[0]] + s.skip(1) =~= s);
            assert forall|i: int| 0 <= i < s.len() implies s[i] != 0 by {
                if i > 0 {
                    assert(s.skip(1)[i - 1] == s[i]);
                }
            }
        }
    }
}

/// Rotating a line keeps its cells: whatever the line held, the rotation
/// holds too.
proof fn lemma_rot_contains(s: Seq<u8>, x: u8)
    requires
        s.contains(x),
    ensures
        rot_zero(s).contains(x),
{
    if s.contains(0u8) {
        let fz = first_zero(s);
        lemma_first_zero_range(s);
        let k = choose|k: int| 0 <= k < s.len() && s[k] == x;
        if k >= fz {
            assert(rot_zero(s)[k - fz] == x);
        } else {
            assert(rot_zero(s)[s.len() - fz + k] == x);
        }
    }
}

/// An effective shift always leaves at least one empty cell, so the spawn
/// that follows it always has somewhere to go.
pub proof fn lemma_effective_shift_leaves_space(cells: Seq<u8>, m: Move)
    requires
        cells.len() == 16,
        move_changes(cells, m),
    ensures
        exists|i: int| 0 <= i < 16 && #[trigger] shift_cells(cells, m)[i] == 0,
{
    reveal(line_result);
    let on_cols = move_on_cols(m);
    let rev = move_reversed(m);
    if forall|j: int|
        0 <= j < 4 ==> merge_pass(condense(#[trigger] line_of(cells, j, on_cols))).len() >= 4 {
        // every merged line still holds 4 cells: then no line lost or moved
        // anything, and the board cannot have changed
        assert forall|j: int| 0 <= j < 4 implies line_result(
            #[trigger] line_of(cells, j, on_cols),
            rev,
        ) == line_of(cells, j, on_cols) by {
            let line = line_of(cells, j, on_cols);
            let c = condense(line);
            lemma_condense_len(line);
            lemma_merge_counts(c);
            lemma_condense_len(c);
            assert(c.len() == 4);
            lemma_condense_full(line);
            lemma_merge_gain_zero_id(c);
            lemma_condense_id(c);
            assert(merge_pass(c) == line);
            assert(pad4(merge_pass(c)) == line);
            if rev {
                assert(!line.contains(0u8));
            }
        }
        assert(line_of(cells, 0, on_cols) == if on_cols {
            col_of(cells, 0)
        } else {
            row_of(cells, 0)
        });
        assert(line_of(cells, 1, on_cols) == if on_cols {
            col_of(cells, 1)
        } else {
            row_of(cells, 1)
        });
        assert(line_of(cells, 2, on_cols) == if on_cols {
            col_of(cells, 2)
        } else {
            row_of(cells, 2)
        });
        assert(line_of(cells, 3, on_cols) == if on_cols {
            col_of(cells, 3)
        } else {
            row_of(cells, 3)
        });
        assert(shift_cells(cells, m) =~= cells);
    } else {
        let j = choose|j: int|
            0 <= j < 4 && merge_pass(condense(line_of(cells, j, on_cols))).len() < 4;
        let line = line_of(cells, j, on_cols);
        let mp = merge_pass(condense(line));
        let p = pad4(mp);
        assert(p[3] == 0);
        assert(p.contains(0u8));
        let lr = line_result(line, rev);
        if rev {
            lemma_rot_contains(p, 0u8);
        }
        assert(lr.contains(0u8));
        let t = choose|t: int| 0 <= t < lr.len() && lr[t] == 0;
        lemma_line_result_len(line, rev);
        assert(j == 0 || j == 1 || j == 2 || j == 3);
        if on_cols {
            assert(shift_cells(cells, m)[t * 4 + j] == 0);
        } else {
            assert(shift_cells(cells, m)[j * 4 + t] == 0);
        }
    }
}

/// A finished board offers no move at all: the game-over rule and the
/// available-move rule agree.
pub proof fn lemma_game_over_no_moves(cells: Seq<u8>)
    requires
        cells.len() == 16,
        game_over_spec(cells),
    ensures
        !has_move(cells),
{
    lemma_game_over_stuck(cells);
}

/// Counting empties distributes over concatenation.
pub proof fn lemma_empty_count_concat(a: Seq<u8>, b: Seq<u8>)
    ensures
        empty_count(a + b) == empty_count(a) + empty_count(b),
    decreases a.len(),
{
    if a.len() == 0 {
        assert(a + b =~= b);
    } else {
        assert((a + b)[0] == a[0]);
        assert((a + b).skip(1) =~= a.skip(1) + b);
        lemma_empty_count_concat(a.skip(1), b);
    }
}

/// The count of empties is a count: between 0 and the length, zero exactly
/// when no cell is empty.
pub proof fn lemma_empty_count_bounds(s: Seq<u8>)
    ensures
        0 <= empty_count(s) <= s.len(),
        (empty_count(s) == 0) == (forall|i: int| 0 <= i < s.len() ==> s[i] != 0),
    decreases s.len(),
{
    if s.len() > 0 {
        lemma_empty_count_bounds(s.skip(1));
        assert forall|i: int| 1 <= i < s.len() implies s.skip(1)[i - 1] == s[i] by {}
        if s[0] != 0 && empty_count(s.skip(1)) == 0 {
            assert forall|i: int| 0 <= i < s.len() implies s[i] != 0 by {
                if i > 0 {
                    assert(s.skip(1)[i - 1] != 0);
                }
            }
        }
        if empty_count(s) > 0 {
            if s[0] != 0 {
                let i = choose|i: int| 0 <= i < s.skip(1).len() && s.skip(1)[i] == 0;
                assert(s[i + 1] == 0);
            }
        }
    }
}

/// Filling one empty cell lowers the count of empties by one.
pub proof fn lemma_empty_count_update(s: Seq<u8>, p: int, v: u8)
    requires
        0 <= p < s.len(),
        s[p] == 0,
        v != 0,
    ensures
        empty_count(s.update(p, v)) == empty_count(s) - 1,
    decreases s.len(),
{
    let u = s.update(p, v);
    if p == 0 {
        assert(u.skip(1) =~= s.skip(1));
    } else {
        assert(u[0] == s[0]);
        assert(u.skip(1) =~= s.skip(1).update(p - 1, v));
        lemma_empty_count_update(s.skip(1), p - 1, v);
    }
}

/// A line with an occupied cell condenses to something.
proof fn lemma_condense_some(s: Seq<u8>)
    requires
        exists|i: int| 0 <= i < s.len() && s[i] != 0,
    ensures
        condense(s).len() >= 1,
    decreases s.len(),
{
    let i = choose|i: int| 0 <= i < s.len() && s[i] != 0;
    if s[0] == 0 {
        assert(s.skip(1)[i - 1] == s[i]);
        lemma_condense_some(s.skip(1));
    }
}

/// A line with an empty cell condenses to something strictly shorter.
proof fn lemma_condense_less(s: Seq<u8>)
    requires
        exists|i: int| 0 <= i < s.len() && s[i] == 0,
    ensures
        condense(s).len() < s.len(),
    decreases s.len(),
{
    let i = choose|i: int| 0 <= i < s.len() && s[i] == 0;
    if s[0] == 0 {
        lemma_condense_len(s.skip(1));
    } else {
        assert(s.skip(1)[i - 1] == s[i]);
        lemma_condense_less(s.skip(1));
    }
}

/// A line holding both a tile and an empty changes under one of its two
/// shifts: shifted forward its first cell is occupied, shifted backward its
/// first cell is empty.
proof fn lemma_line_mixed_ends(line: Seq<u8>)
    requires
        line.len() == 4,
        exists|i: int| 0 <= i < 4 && line[i] == 0,
        exists|i: int| 0 <= i < 4 && line[i] != 0,
    ensures
        line_result(line, false)[0] != 0,
        line_result(line, true)[0] == 0,
{
    reveal(line_result);
    let c = condense(line);
    lemma_condense_some(line);
    lemma_condense_less(line);
    lemma_condense_len(line);
    lemma_condense_nonzero(line);
    lemma_condense_id(c);
    let mp = merge_pass(c);
    lemma_merge_counts(c);
    lemma_merge_nonzero(c);
    assert(c[0] != 0);
    assert(mp.len() >= 1) by {
        if c.len() >= 2 && c[0] == c[1] {
            assert(mp == seq![inc_exp(c[0])] + merge_pass(c.skip(2)));
        } else {
            assert(mp == seq![c[0]] + merge_pass(c.skip(1)));
        }
    }
    assert(mp.len() < 4);
    let p = pad4(mp);
    assert(p[0] == mp[0]);
    let z = Seq::new((4 - mp.len()) as nat, |i: int| 0u8);
    assert(p == mp + z);
    lemma_first_zero_compact(mp, z);
    assert(first_zero(p) == mp.len());
    assert(p[mp.len() as int] == 0);
    assert(p.contains(0u8));
    assert(rot_zero(p)[0] == p[mp.len() as int]);
}

/// A mixed row makes its board movable.
proof fn lemma_mixed_row_move(cells: Seq<u8>, y: int)
    requires
        cells.len() == 16,
        0 <= y < 4,
        exists|t: int| 0 <= t < 4 && row_of(cells, y)[t] == 0,
        exists|t: int| 0 <= t < 4 && row_of(cells, y)[t] != 0,
    ensures
        has_move(cells),
{
    let line = row_of(cells, y);
    lemma_line_mixed_ends(line);
    assert(y == 0 || y == 1 || y == 2 || y == 3);
    if cells[4 * y] == 0 {
        let m = Move::Left;
        assert(shift_cells(cells, m)[4 * y] == line_result(row_of(cells, y), false)[0]);
        assert(move_changes(cells, m)) by {
            if shift_cells(cells, m) == cells {
                assert(shift_cells(cells, m)[4 * y] == cells[4 * y]);
            }
        }
    } else {
        let m = Move::Right;
        assert(shift_cells(cells, m)[4 * y] == line_result(row_of(cells, y), true)[0]);
        assert(move_changes(cells, m)) by {
            if shift_cells(cells, m) == cells {
                assert(shift_cells(cells, m)[4 * y] == cells[4 * y]);
            }
        }
    }
}

/// A mixed first column makes its board movable.
proof fn lemma_mixed_col_move(cells: Seq<u8>)
    requires
        cells.len() == 16,
        exists|t: int| 0 <= t < 4 && col_of(cells, 0)[t] == 0,
        exists|t: int| 0 <= t < 4 && col_of(cells, 0)[t] != 0,
    ensures
        has_move(cells),
{
    let line = col_of(cells, 0);
    lemma_line_mixed_ends(line);
    if cells[0] == 0 {
        let m = Move::Up;
        assert(shift_cells(cells, m)[0] == line_result(col_of(cells, 0), false)[0]);
        assert(move_changes(cells, m)) by {
            if shift_cells(cells, m) == cells {
                assert(shift_cells(cells, m)[0] == cells[0]);
            }
        }
    } else {
        let m = Move::Down;
        assert(shift_cells(cells, m)[0] == line_result(col_of(cells, 0), true)[0]);
        assert(move_changes(cells, m)) by {
            if shift_cells(cells, m) == cells {
                assert(shift_cells(cells, m)[0] == cells[0]);
            }
        }
    }
}

/// A board holding both a tile and an empty cell always admits a move: of
/// all boards that are not yet lost, only the completely empty one is
/// stuck.
pub proof fn lemma_mixed_has_move(cells: Seq<u8>)
    requires
        cells.len() == 16,
        exists|i: int| 0 <= i < 16 && cells[i] == 0,
        exists|i: int| 0 <= i < 16 && cells[i] != 0,
    ensures
        has_move(cells),
{
    let i0 = choose|i: int| 0 <= i < 16 && cells[i] == 0;
    let j0 = choose|i: int| 0 <= i < 16 && cells[i] != 0;
    let yi = i0 / 4;
    let yj = j0 / 4;
    assert(0 <= yi < 4 && 0 <= yj < 4);
    assert(4 * yi + i0 % 4 == i0 && 0 <= i0 % 4 < 4);
    assert(4 * yj + j0 % 4 == j0 && 0 <= j0 % 4 < 4);
    assert(row_of(cells, yi)[i0 % 4] == cells[i0]);
    assert(row_of(cells, yj)[j0 % 4] == cells[j0]);
    if exists|t: int| 0 <= t < 4 && row_of(cells, yi)[t] != 0 {
        lemma_mixed_row_move(cells, yi);
    } else if exists|t: int| 0 <= t < 4 && row_of(cells, yj)[t] == 0 {
        lemma_mixed_row_move(cells, yj);
    } else {
        assert(row_of(cells, yi)[0] == 0);
        assert(row_of(cells, yj)[0] != 0);
        assert(col_of(cells, 0)[yi] == cells[yi * 4]);
        assert(col_of(cells, 0)[yj] == cells[yj * 4]);
        assert(row_of(cells, yi)[0] == cells[yi * 4]);
        assert(row_of(cells, yj)[0] == cells[yj * 4]);
        lemma_mixed_col_move(cells);
    }
}

/// A full line that still holds an adjacent equal pair earns score when
/// merged.
proof fn lemma_full_pair_gain(s: Seq<u8>)
    requires
        s.len() == 4,
        forall|i: int| 0 <= i < 4 ==> s[i] != 0,
        !no_pair4(s),
    ensures
        merge_gain(s) > 0,
{
    assert(s.skip(1)[0] == s[1]);
    assert(s.skip(1)[1] == s[2]);
    assert(s.skip(1).skip(1) =~= s.skip(2));
    assert(s.skip(2)[0] == s[2]);
    assert(s.skip(2)[1] == s[3]);
    assert(s.skip(2).skip(1) =~= s.skip(3));
    assert(s.skip(3)[0] == s[3]);
    assert(s.skip(3).skip(1) =~= s.skip(4));
    assert(s.skip(4) =~= Seq::<u8>::empty());
    assert(s.skip(1).skip(2) =~= s.skip(3));
    assert(s.skip(2).skip(2) =~= s.skip(4));
    assert(merge_gain(Seq::<u8>::empty()) == 0);
    lemma_merge_counts(s.skip(2));
    lemma_merge_counts(s.skip(3));
    if s[0] == s[1] {
        lemma_pow2_capped_pos(inc_exp(s[0]) as nat);
        assert(merge_gain(s) == pow2_capped(inc_exp(s[0]) as nat) + merge_gain(s.skip(2)));
    } else if s[1] == s[2] {
        lemma_pow2_capped_pos(inc_exp(s[1]) as nat);
        assert(merge_gain(s) == merge_gain(s.skip(1)));
        assert(merge_gain(s.skip(1)) == pow2_capped(inc_exp(s[1]) as nat) + merge_gain(s.skip(3)));
    } else {
        lemma_pow2_capped_pos(inc_exp(s[2]) as nat);
        assert(merge_gain(s) == merge_gain(s.skip(1)));
        assert(merge_gain(s.skip(1)) == merge_gain(s.skip(2)));
        assert(merge_gain(s.skip(2)) == pow2_capped(inc_exp(s[2]) as nat) + merge_gain(s.skip(4)));
        assert(merge_gain(s.skip(4)) == 0);
    }
}

/// A full board that is not yet lost still admits a move: some condensed
/// line holds an adjacent equal pair, and merging it changes the board.
pub proof fn lemma_full_not_over_has_move(cells: Seq<u8>)
    requires
        cells.len() == 16,
        board_full(cells),
        !game_over_spec(cells),
    ensures
        has_move(cells),
{
    if !(forall|y: int| 0 <= y < 4 ==> no_pair4(pad4(condense(row_of(cells, y))))) {
        let y = choose|y: int| 0 <= y < 4 && !no_pair4(pad4(condense(row_of(cells, y))));
        let line = row_of(cells, y);
        assert(forall|t: int| 0 <= t < 4 ==> line[t] != 0);
        lemma_condense_id(line);
        assert(pad4(condense(line)) == line);
        lemma_full_pair_gain(line);
        let m = Move::Left;
        lemma_merge_counts(condense(row_of(cells, 0)));
        lemma_merge_counts(condense(row_of(cells, 1)));
        lemma_merge_counts(condense(row_of(cells, 2)));
        lemma_merge_counts(condense(row_of(cells, 3)));
        assert(y == 0 || y == 1 || y == 2 || y == 3);
        assert(shift_gain(cells, m) > 0);
        assert(move_changes(cells, m)) by {
            if shift_cells(cells, m) == cells {
                lemma_unchanged_no_gain(cells, m);
            }
        }
    } else {
        let x = choose|x: int| 0 <= x < 4 && !no_pair4(pad4(condense(col_of(cells, x))));
        let line = col_of(cells, x);
        assert(forall|t: int| 0 <= t < 4 ==> line[t] != 0);
        lemma_condense_id(line);
        assert(pad4(condense(line)) == line);
        lemma_full_pair_gain(line);
        let m = Move::Up;
        lemma_merge_counts(condense(col_of(cells, 0)));
        lemma_merge_counts(condense(col_of(cells, 1)));
        lemma_merge_counts(condense(col_of(cells, 2)));
        lemma_merge_counts(condense(col_of(cells, 3)));
        assert(x == 0 || x == 1 || x == 2 || x == 3);
        assert(shift_gain(cells, m) > 0);
        assert(move_changes(cells, m)) by {
            if shift_cells(cells, m) == cells {
                lemma_unchanged_no_gain(cells, m);
            }
        }
    }
}

/// A board that is neither lost nor movable is completely empty.
pub proof fn lemma_stuck_is_empty(cells: Seq<u8>)
    requires
        cells.len() == 16,
        !has_move(cells),
        !game_over_spec(cells),
    ensures
        cells == empty_cells16(),
{
    assert forall|i: int| 0 <= i < 16 implies cells[i] == 0 by {
        if cells[i] != 0 {
            if exists|k: int| 0 <= k < 16 && cells[k] == 0 {
                lemma_mixed_has_move(cells);
            } else {
                assert(board_full(cells));
                lemma_full_not_over_has_move(cells);
            }
        }
    }
    assert(cells =~= empty_cells16());
}

// ---------------------------------------------------------------------------
// Executable helpers.
// ---------------------------------------------------------------------------

/// Rotates a line so that the cells from its first empty onward come first;
/// a line without empties is returned unchanged.
fn rotate_line(v: &[u8; 4]) -> (r: [u8; 4])
    ensures
        r@ == rot_zero(v@),
{
    proof {
        assert(v@.skip(1)[0] == v@[1]);
        assert(v@.skip(1).skip(1) =~= v@.skip(2));
        assert(v@.skip(2)[0] == v@[2]);
        assert(v@.skip(2).skip(1) =~= v@.skip(3));
        assert(v@.skip(3)[0] == v@[3]);
    }
    if v[0] == 0 {
        proof {
            assert(v@.contains(0u8)) by {
                assert(v@[0] == 0);
            }
            assert(first_zero(v@) == 0);
            assert(v@.skip(0) + v@.take(0) =~= v@);
        }
        *v
    } else if v[1] == 0 {
        proof {
            assert(v@.contains(0u8)) by {
                assert(v@[1] == 0);
            }
            assert(first_zero(v@.skip(1)) == 0);
            assert(first_zero(v@) == 1);
            assert(v@.skip(1) + v@.take(1) =~= seq![v@[1], v@[2], v@[3], v@[0]]);
        }
        [v[1], v[2], v[3], v[0]]
    } else if v[2] == 0 {
        proof {
            assert(v@.contains(0u8)) by {
                assert(v@[2] == 0);
            }
            assert(first_zero(v@.skip(2)) == 0);
            assert(first_zero(v@.skip(1)) == 1);
            assert(first_zero(v@) == 2);
            assert(v@.skip(2) + v@.take(2) =~= seq![v@[2], v@[3], v@[0], v@[1]]);
        }
        [v[2], v[3], v[0], v[1]]
    } else if v[3] == 0 {
        proof {
            assert(v@.contains(0u8)) by {
                assert(v@[3] == 0);
            }
            assert(first_zero(v@.skip(3)) == 0);
            assert(first_zero(v@.skip(2)) == 1);
            assert(first_zero(v@.skip(1)) == 2);
            assert(first_zero(v@) == 3);
            assert(v@.skip(3) + v@.take(3) =~= seq![v@[3], v@[0], v@[1], v@[2]]);
        }
        [v[3], v[0], v[1], v[2]]
    } else {
        proof {
            assert(!v@.contains(0u8)) by {
                assert(forall|i: int| 0 <= i < 4 ==> v@[i] != 0);
            }
        }
        *v
    }
}

/// Relies on transpose::transpose: writes the transpose of a row-major 4x4
/// matrix, so that output cell `(x, y)` holds input cell `(y, x)`.
#[verifier::external_body]
fn transpose4(input: &[u8; 16]) -> (r: [u8; 16])
    ensures
        forall|i: int| 0 <= i < 16 ==> #[trigger] r@[i] == input@[(i % 4) * 4 + i / 4],
{
    let mut out: [u8; 16] = [0; 16];
    transpose::transpose(input, &mut out, 4, 4);
    out
}

/// `2^e` as a `usize`, saturating at `usize::MAX`.
fn pow2_exec(e: u8) -> (r: usize)
    ensures
        r as int == pow2_capped(e as nat),
{
    let mut r: usize = 1;
    let mut k: u8 = 0;
    while k < e
        invariant
            k <= e,
            r as int == pow2_capped(k as nat),
        decreases e - k,
    {
        r = if r > usize::MAX / 2 {
            usize::MAX
        } else {
            r * 2
        };
        k = k + 1;
    }
    r
}

/// Compares two boards cell by cell.
fn arrays16_equal(a: &[u8; 16], b: &[u8; 16]) -> (r: bool)
    ensures
        r == (a@ == b@),
{
    let mut i: usize = 0;
    let mut eq: bool = true;
    while i < 16
        invariant
            i <= 16,
            eq == (forall|j: int| 0 <= j < i ==> a@[j] == b@[j]),
        decreases 16 - i,
    {
        if a[i] != b[i] {
            eq = false;
        }
        i += 1;
    }
    proof {
        if eq {
            assert(a@ =~= b@);
        }
    }
    eq
}

/// Moves the occupied cells of one line to its front, keeping their order.
fn condense_line(v: &[u8; 4]) -> (r: [u8; 4])
    ensures
        r@ == pad4(condense(v@)),
{
    let mut r: [u8; 4] = [0; 4];
    let mut j: usize = 0;
    let mut i: usize = 0;
    while i < 4
        invariant
            i <= 4,
            j <= i,
            condense(v@.take(i as int)) =~= r@.take(j as int),
            forall|t: int| j <= t < 4 ==> r@[t] == 0,
        decreases 4 - i,
    {
        let vi = v[i];
        proof {
            assert(v@.take(i + 1) =~= v@.take(i as int) + seq![v@[i as int]]);
            lemma_condense_concat(v@.take(i as int), seq![v@[i as int]]);
            lemma_condense_singleton(vi);
        }
        if vi != 0 {
            r[j] = vi;
            proof {
                assert(r@.take(j + 1) =~= r@.take(j as int) + seq![vi]);
            }
            j += 1;
        } else {
            proof {
                assert(condense(v@.take(i as int)) + Seq::<u8>::empty() =~= condense(
                    v@.take(i as int),
                ));
            }
        }
        i += 1;
    }
    proof {
        assert(v@.take(4) =~= v@);
        assert(condense(v@) =~= r@.take(j as int));
        lemma_condense_len(v@);
        if j == 4 {
            assert(r@.take(4) =~= r@);
        } else {
            assert(r@ =~= condense(v@) + Seq::new((4 - condense(v@).len()) as nat, |t: int| 0u8));
        }
    }
    r
}

/// The mathematical content of a [`Game`]: the 16 cell exponents, the score
/// and the count of effective moves.
#[verifier::ext_equal]
pub struct BoardView {
    /// Cell exponents in row-major order; always 16 of them.
    pub cells: Seq<u8>,
    /// Total score earned by merges.
    pub score: int,
    /// Count of effective moves made.
    pub num_moves: int,
}

/// Relates a board to the board after `Game::make_move(m)`: an effective
/// move shifts, scores, spawns one tile and counts the move; an ineffective
/// one changes nothing.
pub open spec fn move_applied(pre: BoardView, m: Move, post: BoardView) -> bool {
    if move_changes(pre.cells, m) {
        spawn_result(shift_cells(pre.cells, m), post.cells) && post.score == sat_add_spec(
            pre.score,
            shift_gain(pre.cells, m),
        ) && post.num_moves == sat_add_spec(pre.num_moves, 1)
    } else {
        post == pre
    }
}

/// The merge gains of a shift are never negative.
pub proof fn lemma_shift_gain_nonneg(cells: Seq<u8>, m: Move)
    ensures
        shift_gain(cells, m) >= 0,
{
    let on_cols = move_on_cols(m);
    lemma_merge_counts(condense(line_of(cells, 0, on_cols)));
    lemma_merge_counts(condense(line_of(cells, 1, on_cols)));
    lemma_merge_counts(condense(line_of(cells, 2, on_cols)));
    lemma_merge_counts(condense(line_of(cells, 3, on_cols)));
}

/// Every board's view fits the machine: 16 cells, and score and move
/// counter within `usize` range.
pub broadcast proof fn lemma_view_bounds(g: Game)
    ensures
        #![trigger g.view()]
        0 <= g@.score <= usize::MAX,
        0 <= g@.num_moves <= usize::MAX,
        g@.cells.len() == 16,
{
}

/// A 4x4 board of tile exponents together with its score and move counter.
#[derive(Clone, Copy, PartialEq, Eq, Hash, Debug)]
pub struct Game {
    state: [u8; 16],
    score: usize,
    num_moves: usize,
}

impl View for Game {
    type V = BoardView;

    closed spec fn view(&self) -> BoardView {
        BoardView { cells: self.state@, score: self.score as int, num_moves: self.num_moves as int }
    }
}

impl Game {
    /// A board with every cell empty, score 0 and no moves made.
    pub fn empty() -> (g: Game)
        ensures
            g@.cells == empty_cells16(),
            g@.score == 0,
            g@.num_moves == 0,
    {
        let g = Game { state: [0; 16], score: 0, num_moves: 0 };
        proof {
            assert(g@.cells =~= empty_cells16());
        }
        g
    }

    /// A fresh board with two spawned tiles, like [`Game::default`].
    pub fn new() -> (g: Game)
        ensures
            g@.score == 0,
            g@.num_moves == 0,
            exists|mid: Seq<u8>|
                #[trigger] spawn_result(empty_cells16(), mid) && spawn_result(mid, g@.cells),
    {
        Game::default()
    }

    /// Seeds the process-wide random source, then builds a fresh board; all
    /// later draws of a single-threaded run are determined by `seed`.
    pub fn new_seeded(seed: u64) -> (g: Game)
        ensures
            g@.score == 0,
            g@.num_moves == 0,
            exists|mid: Seq<u8>|
                #[trigger] spawn_result(empty_cells16(), mid) && spawn_result(mid, g@.cells),
    {
        crate::rng::seed_rng(seed);
        Game::default()
    }

    /// A board holding the given cells with score 0 and no moves made.  The
    /// random source is still drawn from twice, exactly as [`Game::new`]
    /// would.
    pub fn new_from(state: [u8; 16]) -> (g: Game)
        ensures
            g@.cells == state@,
            g@.score == 0,
            g@.num_moves == 0,
    {
        let mut game = Game::default();
        game.set_state(state);
        game
    }

    /// The board as displayed values: row-major rows of `2^n` for each cell
    /// exponent `n` (an empty cell shows as 1).
    pub fn get_table(&self) -> (r: Vec<Vec<u32>>)
        requires
            forall|i: int| 0 <= i < 16 ==> self@.cells[i] < 32,
        ensures
            r@.len() == 4,
            forall|y: int| 0 <= y < 4 ==> #[trigger] r@[y]@.len() == 4,
            forall|y: int, x: int|
                0 <= y < 4 && 0 <= x < 4 ==> #[trigger] r@[y]@[x] == pow2_capped(
                    self@.cells[y * 4 + x] as nat,
                ),
    {
        let mut table: Vec<Vec<u32>> = Vec::new();
        let mut y: usize = 0;
        while y < 4
            invariant
                y <= 4,
                table@.len() == y,
                forall|i: int| 0 <= i < 16 ==> self@.cells[i] < 32,
                forall|j: int| 0 <= j < y ==> #[trigger] table@[j]@.len() == 4,
                forall|j: int, x: int|
                    0 <= j < y && 0 <= x < 4 ==> #[trigger] table@[j]@[x] == pow2_capped(
                        self@.cells[j * 4 + x] as nat,
                    ),
            decreases 4 - y,
        {
            let mut row: Vec<u32> = Vec::new();
            let mut x: usize = 0;
            while x < 4
                invariant
                    y < 4,
                    x <= 4,
                    row@.len() == x,
                    forall|i: int| 0 <= i < 16 ==> self@.cells[i] < 32,
                    forall|t: int|
                        0 <= t < x ==> #[trigger] row@[t] == pow2_capped(
                            self@.cells[y * 4 + t] as nat,
                        ),
                decreases 4 - x,
            {
                let e: u8 = self.state[y * 4 + x];
                let p: usize = pow2_exec(e);
                proof {
                    assert(self@.cells[y * 4 + x] < 32);
                    assert(e < 32);
                    lemma_pow2_capped_eq(e as nat);
                    vstd::arithmetic::power2::lemma2_to64();
                    if e < 31 {
                        vstd::arithmetic::power2::lemma_pow2_strictly_increases(e as nat, 31);
                    }
                    assert(p <= 0x80000000);
                }
                row.push(p as u32);
                x += 1;
            }
            table.push(row);
            y += 1;
        }
        table
    }

    /// The cell at column `x`, row `y`.
    pub fn get_tile(&self, x: u8, y: u8) -> (r: u8)
        requires
            x < 4,
            y < 4,
        ensures
            r == self@.cells[x + y * 4],
    {
        self.state[(x + y * 4) as usize]
    }

    /// Writes the cell at column `x`, row `y`.
    pub fn set_tile(&mut self, x: u8, y: u8, value: u8)
        requires
            x < 4,
            y < 4,
        ensures
            final(self)@.cells =~= old(self)@.cells.update(x + y * 4, value),
            final(self)@.score == old(self)@.score,
            final(self)@.num_moves == old(self)@.num_moves,
    {
        self.state[(x + y * 4) as usize] = value;
    }

    /// The number of effective moves made so far.
    pub fn get_num_moves(&self) -> (r: &usize)
        ensures
            *r == self@.num_moves,
    {
        &self.num_moves
    }

    /// The score accumulated by merges so far.
    pub fn get_score(&self) -> (r: &usize)
        ensures
            *r == self@.score,
    {
        &self.score
    }

    /// The raw cells, row-major.
    pub fn get_state(&self) -> (r: &[u8; 16])
        ensures
            r@ == self@.cells,
    {
        &self.state
    }

    /// Replaces the cells wholesale, keeping score and move counter.
    pub fn set_state(&mut self, s: [u8; 16])
        ensures
            final(self)@.cells == s@,
            final(self)@.score == old(self)@.score,
            final(self)@.num_moves == old(self)@.num_moves,
    {
        self.state = s;
    }

    /// One merge pass over a line: adjacent equal occupied cells merge into
    /// the next exponent, each cell merging at most once, and the result is
    /// condensed toward the front.  When `score` is set, each merge adds
    /// `2^(new exponent)` to the board's score.
    pub fn merge_duplicates(&mut self, v: &[u8; 4], score: bool) -> (r: [u8; 4])
        ensures
            r@ == pad4(merge_pass(v@)),
            final(self)@.cells == old(self)@.cells,
            final(self)@.num_moves == old(self)@.num_moves,
            score ==> final(self)@.score == sat_add_spec(old(self)@.score, merge_gain(v@)),
            !score ==> final(self)@.score == old(self)@.score,
    {
        let mut i: usize = 0;
        let mut j: usize = 0;
        let mut r: [u8; 4] = [0; 4];
        let ghost score0 = self@.score;
        let ghost mut g: int = 0;
        proof {
            assert(v@.skip(0) =~= v@);
            assert(r@.take(0) =~= Seq::<u8>::empty());
            assert(Seq::<u8>::empty() + merge_pass(v@) =~= merge_pass(v@));
        }
        while i < 4
            invariant
                i <= 4,
                j <= i,
                merge_pass(v@) == r@.take(j as int) + merge_pass(v@.skip(i as int)),
                merge_gain(v@) == g + merge_gain(v@.skip(i as int)),
                g >= 0,
                forall|t: int| j <= t < 4 ==> r@[t] == 0,
                self@.cells == old(self)@.cells,
                self@.num_moves == old(self)@.num_moves,
                score0 == old(self)@.score,
                score0 >= 0,
                score ==> self@.score == sat_add_spec(score0, g),
                !score ==> self@.score == score0,
            decreases 4 - i,
        {
            proof {
                assert(v@.skip(i as int).len() == 4 - i);
                assert(v@.skip(i as int)[0] == v@[i as int]);
                if i < 3 {
                    assert(v@.skip(i as int)[1] == v@[i as int + 1]);
                }
            }
            if i < 3 && v[i] != 0 && v[i] == v[i + 1] {
                let newval: u8 = if v[i] == 255 {
                    255
                } else {
                    v[i] + 1
                };
                proof {
                    assert(newval == inc_exp(v@[i as int]));
                    assert(v@.skip(i as int).skip(2) =~= v@.skip(i as int + 2));
                    assert(merge_pass(v@.skip(i as int)) == seq![newval] + merge_pass(
                        v@.skip(i as int + 2),
                    ));
                    assert(merge_gain(v@.skip(i as int)) == pow2_capped(newval as nat)
                        + merge_gain(v@.skip(i as int + 2)));
                    lemma_pow2_capped_pos(newval as nat);
                }
                r[j] = newval;
                proof {
                    assert(r@.take(j + 1) =~= r@.take(j as int) + seq![newval]);
                    assert(merge_pass(v@) == r@.take(j + 1) + merge_pass(v@.skip(i as int + 2)));
                }
                if score {
                    let p = pow2_exec(newval);
                    proof {
                        crate::lemma_sat_add_chain(score0, g, pow2_capped(newval as nat));
                    }
                    self.score = sat_add(self.score, p);
                }
                proof {
                    g = g + pow2_capped(newval as nat);
                }
                j += 1;
                i += 2;
            } else if v[i] != 0 {
                let vi = v[i];
                proof {
                    assert(v@.skip(i as int).skip(1) =~= v@.skip(i as int + 1));
                    assert(merge_pass(v@.skip(i as int)) == seq![vi] + merge_pass(
                        v@.skip(i as int + 1),
                    ));
                }
                r[j] = vi;
                proof {
                    assert(r@.take(j + 1) =~= r@.take(j as int) + seq![vi]);
                    assert(merge_pass(v@) == r@.take(j + 1) + merge_pass(v@.skip(i as int + 1)));
                }
                j += 1;
                i += 1;
            } else {
                proof {
                    assert(v@.skip(i as int).skip(1) =~= v@.skip(i as int + 1));
                }
                i += 1;
            }
        }
        proof {
            assert(v@.skip(4) =~= Seq::<u8>::empty());
            assert(merge_pass(Seq::<u8>::empty()) == Seq::<u8>::empty());
            assert(merge_pass(v@) =~= r@.take(j as int));
            if j == 4 {
                assert(r@.take(4) =~= r@);
            } else {
                assert(r@ =~= merge_pass(v@) + Seq::new((4 - merge_pass(v@).len()) as nat, |t: int| 0u8));
            }
        }
        r
    }

    /// The four columns of the board, each read top to bottom.
    fn get_cols(&self) -> (r: [[u8; 4]; 4])
        ensures
            forall|x: int| 0 <= x < 4 ==> #[trigger] r@[x]@ == col_of(self@.cells, x),
    {
        let r: [[u8; 4]; 4] = [
            [self.state[0], self.state[4], self.state[8], self.state[12]],
            [self.state[1], self.state[5], self.state[9], self.state[13]],
            [self.state[2], self.state[6], self.state[10], self.state[14]],
            [self.state[3], self.state[7], self.state[11], self.state[15]],
        ];
        proof {
            assert(r@[0]@ =~= col_of(self@.cells, 0));
            assert(r@[1]@ =~= col_of(self@.cells, 1));
            assert(r@[2]@ =~= col_of(self@.cells, 2));
            assert(r@[3]@ =~= col_of(self@.cells, 3));
        }
        r
    }

    /// The four rows with their empties removed and the remaining cells
    /// packed to the front.
    pub fn get_condensed_rows(&self) -> (r: [[u8; 4]; 4])
        ensures
            forall|y: int|
                0 <= y < 4 ==> #[trigger] r@[y]@ == pad4(condense(row_of(self@.cells, y))),
    {
        let row0: [u8; 4] = [self.state[0], self.state[1], self.state[2], self.state[3]];
        let row1: [u8; 4] = [self.state[4], self.state[5], self.state[6], self.state[7]];
        let row2: [u8; 4] = [self.state[8], self.state[9], self.state[10], self.state[11]];
        let row3: [u8; 4] = [self.state[12], self.state[13], self.state[14], self.state[15]];
        proof {
            assert(row0@ =~= row_of(self@.cells, 0));
            assert(row1@ =~= row_of(self@.cells, 1));
            assert(row2@ =~= row_of(self@.cells, 2));
            assert(row3@ =~= row_of(self@.cells, 3));
        }
        let r: [[u8; 4]; 4] = [
            condense_line(&row0),
            condense_line(&row1),
            condense_line(&row2),
            condense_line(&row3),
        ];
        r
    }

    /// The four columns with their empties removed and the remaining cells
    /// packed to the front.
    pub fn get_condensed_cols(&self) -> (r: [[u8; 4]; 4])
        ensures
            forall|x: int|
                0 <= x < 4 ==> #[trigger] r@[x]@ == pad4(condense(col_of(self@.cells, x))),
    {
        let cols = self.get_cols();
        let r: [[u8; 4]; 4] = [
            condense_line(&cols[0]),
            condense_line(&cols[1]),
            condense_line(&cols[2]),
            condense_line(&cols[3]),
        ];
        r
    }

    /// Applies the pure geometry of a move: every line is condensed, merged
    /// once and re-padded toward the move's leading edge, and the merges are
    /// scored.  No tile spawns and the move counter is untouched.
    pub fn shift(&mut self, input: Move)
        ensures
            final(self)@.cells == shift_cells(old(self)@.cells, input),
            final(self)@.score == sat_add_spec(
                old(self)@.score,
                shift_gain(old(self)@.cells, input),
            ),
            final(self)@.num_moves == old(self)@.num_moves,
    {
        let on_cols: bool = input == Move::Up || input == Move::Down;
        let reversed: bool = input == Move::Right || input == Move::Down;
        let condensed: [[u8; 4]; 4] = if on_cols {
            self.get_condensed_cols()
        } else {
            self.get_condensed_rows()
        };
        let ghost cells0 = self@.cells;
        let ghost score0 = self@.score;
        let ghost g0 = merge_gain(condense(line_of(cells0, 0, on_cols)));
        let ghost g1 = merge_gain(condense(line_of(cells0, 1, on_cols)));
        let ghost g2 = merge_gain(condense(line_of(cells0, 2, on_cols)));
        let ghost g3 = merge_gain(condense(line_of(cells0, 3, on_cols)));
        proof {
            lemma_shift_line_pad(line_of(cells0, 0, on_cols));
            lemma_shift_line_pad(line_of(cells0, 1, on_cols));
            lemma_shift_line_pad(line_of(cells0, 2, on_cols));
            lemma_shift_line_pad(line_of(cells0, 3, on_cols));
            lemma_merge_counts(condense(line_of(cells0, 0, on_cols)));
            lemma_merge_counts(condense(line_of(cells0, 1, on_cols)));
            lemma_merge_counts(condense(line_of(cells0, 2, on_cols)));
            lemma_merge_counts(condense(line_of(cells0, 3, on_cols)));
        }
        let m0 = self.merge_duplicates(&condensed[0], true);
        let l0 = if reversed {
            rotate_line(&m0)
        } else {
            m0
        };
        let m1 = self.merge_duplicates(&condensed[1], true);
        let l1 = if reversed {
            rotate_line(&m1)
        } else {
            m1
        };
        let m2 = self.merge_duplicates(&condensed[2], true);
        let l2 = if reversed {
            rotate_line(&m2)
        } else {
            m2
        };
        let m3 = self.merge_duplicates(&condensed[3], true);
        let l3 = if reversed {
            rotate_line(&m3)
        } else {
            m3
        };
        proof {
            reveal(line_result);
            assert(l0@ == line_result(line_of(cells0, 0, on_cols), reversed));
            assert(l1@ == line_result(line_of(cells0, 1, on_cols), reversed));
            assert(l2@ == line_result(line_of(cells0, 2, on_cols), reversed));
            assert(l3@ == line_result(line_of(cells0, 3, on_cols), reversed));
            crate::lemma_sat_add_chain(score0, g0, g1);
            crate::lemma_sat_add_chain(score0, g0 + g1, g2);
            crate::lemma_sat_add_chain(score0, g0 + g1 + g2, g3);
            assert(self@.score == sat_add_spec(score0, g0 + g1 + g2 + g3));
            assert(g0 + g1 + g2 + g3 == shift_gain(cells0, input));
        }
        let processed: [u8; 16] = [
            l0[0],
            l0[1],
            l0[2],
            l0[3],
            l1[0],
            l1[1],
            l1[2],
            l1[3],
            l2[0],
            l2[1],
            l2[2],
            l2[3],
            l3[0],
            l3[1],
            l3[2],
            l3[3],
        ];
        if on_cols {
            let t = transpose4(&processed);
            self.state = t;
            proof {
                assert(self@.cells[0] == processed@[0] && self@.cells[1] == processed@[4]
                    && self@.cells[2] == processed@[8] && self@.cells[3] == processed@[12]);
                assert(self@.cells[4] == processed@[1] && self@.cells[5] == processed@[5]
                    && self@.cells[6] == processed@[9] && self@.cells[7] == processed@[13]);
                assert(self@.cells[8] == processed@[2] && self@.cells[9] == processed@[6]
                    && self@.cells[10] == processed@[10] && self@.cells[11] == processed@[14]);
                assert(self@.cells[12] == processed@[3] && self@.cells[13] == processed@[7]
                    && self@.cells[14] == processed@[11] && self@.cells[15] == processed@[15]);
                assert(self@.cells =~= shift_cells(cells0, input));
            }
        } else {
            self.state = processed;
            proof {
                assert(self@.cells =~= shift_cells(cells0, input));
            }
        }
    }

    /// The positions of the empty cells, as row-major indices in increasing
    /// order.
    pub fn empty_positions(&self) -> (r: Vec<u8>)
        ensures
            r@.len() <= 16,
            r@.len() == empty_count(self@.cells),
            forall|t: int| 0 <= t < r@.len() ==> #[trigger] r@[t] < 16,
            forall|t: int| 0 <= t < r@.len() ==> self@.cells[#[trigger] r@[t] as int] == 0,
            forall|i: int| 0 <= i < 16 ==> (self@.cells[i] == 0 <==> r@.contains(i as u8)),
            forall|p: int, q: int| 0 <= p < q < r@.len() ==> r@[p] < r@[q],
    {
        let mut r: Vec<u8> = Vec::new();
        let mut i: usize = 0;
        while i < 16
            invariant
                i <= 16,
                r@.len() <= i,
                r@.len() == empty_count(self@.cells.take(i as int)),
                forall|t: int| 0 <= t < r@.len() ==> #[trigger] r@[t] < i,
                forall|t: int| 0 <= t < r@.len() ==> self@.cells[#[trigger] r@[t] as int] == 0,
                forall|j: int| 0 <= j < i ==> (self@.cells[j] == 0 <==> r@.contains(j as u8)),
                forall|p: int, q: int| 0 <= p < q < r@.len() ==> r@[p] < r@[q],
            decreases 16 - i,
        {
            let ghost prev = r@;
            proof {
                assert(self@.cells.take(i + 1) =~= self@.cells.take(i as int) + seq![
                    self@.cells[i as int],
                ]);
                lemma_empty_count_concat(self@.cells.take(i as int), seq![self@.cells[i as int]]);
                assert(seq![self@.cells[i as int]].skip(1) =~= Seq::<u8>::empty());
                assert(empty_count(Seq::<u8>::empty()) == 0);
            }
            if self.state[i] == 0 {
                r.push(i as u8);
                proof {
                    assert(r@[r@.len() - 1] == i as u8);
                    assert forall|j: int| 0 <= j < i + 1 implies (self@.cells[j] == 0
                        <==> r@.contains(j as u8)) by {
                        if j < i {
                            if self@.cells[j] == 0 {
                                let k = choose|k: int| 0 <= k < prev.len() && prev[k] == j as u8;
                                assert(r@[k] == j as u8);
                            } else {
                                assert forall|k: int| 0 <= k < r@.len() implies r@[k] != j as u8 by {
                                    if k < prev.len() {
                                        assert(r@[k] == prev[k]);
                                    }
                                }
                            }
                        } else {
                            assert(r@.contains(j as u8));
                        }
                    }
                }
            } else {
                proof {
                    assert forall|j: int| 0 <= j < i + 1 implies (self@.cells[j] == 0
                        <==> r@.contains(j as u8)) by {
                        if j == i {
                            assert forall|k: int| 0 <= k < r@.len() implies r@[k] != j as u8 by {
                                assert(r@[k] < i);
                            }
                        }
                    }
                }
            }
            i += 1;
        }
        proof {
            assert(self@.cells.take(16) =~= self@.cells);
        }
        r
    }

    /// Spawns one tile: a uniformly random empty cell receives exponent 1
    /// with probability 9/10 and exponent 2 otherwise; a full board is left
    /// unchanged.
    fn generate_tile(&mut self)
        ensures
            spawn_result(old(self)@.cells, final(self)@.cells),
            final(self)@.score == old(self)@.score,
            final(self)@.num_moves == old(self)@.num_moves,
    {
        let d = rand_below(10);
        let n: u8 = if d < 9 {
            1
        } else {
            2
        };
        let empties = self.empty_positions();
        if empties.len() == 0 {
            proof {
                assert forall|i: int| 0 <= i < 16 implies self@.cells[i] != 0 by {
                    if self@.cells[i] == 0 {
                        assert(empties@.contains(i as u8));
                    }
                }
            }
            return ;
        }
        let c = rand_below(empties.len());
        let pos = empties[c];
        self.state[pos as usize] = n;
        proof {
            let i = pos as int;
            assert(old(self)@.cells[i] == 0);
            assert(final(self)@.cells =~= old(self)@.cells.update(i, n));
        }
    }

    /// Whether the game has ended: every cell is occupied and no condensed
    /// row or column holds two adjacent equal cells, so no move can change
    /// the board.
    pub fn game_over(&self) -> (r: bool)
        ensures
            r == game_over_spec(self@.cells),
    {
        let mut i: usize = 0;
        while i < 16
            invariant
                i <= 16,
                forall|j: int| 0 <= j < i ==> self@.cells[j] != 0,
            decreases 16 - i,
        {
            if self.state[i] == 0 {
                proof {
                    assert(!board_full(self@.cells));
                }
                return false;
            }
            i += 1;
        }
        let rows = self.get_condensed_rows();
        let mut y: usize = 0;
        while y < 4
            invariant
                y <= 4,
                forall|t: int|
                    0 <= t < 4 ==> #[trigger] rows@[t]@ == pad4(condense(row_of(self@.cells, t))),
                forall|j: int| 0 <= j < y ==> no_pair4(pad4(condense(row_of(self@.cells, j)))),
            decreases 4 - y,
        {
            let row = rows[y];
            if row[0] == row[1] || row[1] == row[2] || row[2] == row[3] {
                proof {
                    assert(!no_pair4(pad4(condense(row_of(self@.cells, y as int)))));
                }
                return false;
            }
            y += 1;
        }
        let cols = self.get_condensed_cols();
        let mut x: usize = 0;
        while x < 4
            invariant
                x <= 4,
                forall|t: int|
                    0 <= t < 4 ==> #[trigger] cols@[t]@ == pad4(condense(col_of(self@.cells, t))),
                forall|j: int| 0 <= j < x ==> no_pair4(pad4(condense(col_of(self@.cells, j)))),
                forall|j: int| 0 <= j < 16 ==> self@.cells[j] != 0,
                forall|j: int| 0 <= j < 4 ==> no_pair4(pad4(condense(row_of(self@.cells, j)))),
            decreases 4 - x,
        {
            let col = cols[x];
            if col[0] == col[1] || col[1] == col[2] || col[2] == col[3] {
                proof {
                    assert(!no_pair4(pad4(condense(col_of(self@.cells, x as int)))));
                }
                return false;
            }
            x += 1;
        }
        true
    }

    /// The subset of the four moves that would change the board, in
    /// declaration order; empty exactly when no move has any effect.
    pub fn available_moves(&self) -> (r: Vec<Move>)
        ensures
            forall|m: Move| #[trigger] r@.contains(m) <==> move_changes(self@.cells, m),
            forall|p: int, q: int|
                0 <= p < q < r@.len() ==> move_index(r@[p]) < move_index(r@[q]),
            r@.len() <= 4,
    {
        let moves = all_moves();
        let mut r: Vec<Move> = Vec::new();
        let mut i: usize = 0;
        while i < 4
            invariant
                i <= 4,
                moves@ == seq![Move::Up, Move::Down, Move::Left, Move::Right],
                r@.len() <= i,
                forall|m: Move| #[trigger] r@.contains(m) <==> (move_changes(self@.cells, m)
                    && move_index(m) < i),
                forall|p: int| 0 <= p < r@.len() ==> move_index(r@[p]) < i,
                forall|p: int, q: int|
                    0 <= p < q < r@.len() ==> move_index(r@[p]) < move_index(r@[q]),
            decreases 4 - i,
        {
            let m = moves[i];
            proof {
                assert(move_index(m) == i as int) by {
                    assert(i == 0 || i == 1 || i == 2 || i == 3);
                }
            }
            let mut g: Game = *self;
            g.shift(m);
            let changed = !arrays16_equal(self.get_state(), g.get_state());
            let ghost prev = r@;
            if changed {
                r.push(m);
            }
            proof {
                assert(changed == move_changes(self@.cells, m));
                assert forall|m2: Move| #[trigger] r@.contains(m2) implies (move_changes(
                    self@.cells,
                    m2,
                ) && move_index(m2) < i + 1) by {
                    let k = choose|k: int| 0 <= k < r@.len() && r@[k] == m2;
                    if k < prev.len() {
                        assert(prev[k] == m2);
                        assert(prev.contains(m2));
                    } else {
                        assert(changed && m2 == m);
                    }
                }
                assert forall|m2: Move|
                    move_changes(self@.cells, m2) && move_index(m2) < i + 1 implies #[trigger] r@.contains(
                    m2,
                ) by {
                    if move_index(m2) < i {
                        assert(prev.contains(m2));
                        let k = choose|k: int| 0 <= k < prev.len() && prev[k] == m2;
                        assert(r@[k] == m2);
                        assert(r@.contains(m2));
                    } else {
                        assert(move_index(m2) == i as int);
                        assert(m2 == m);
                        assert(changed);
                        assert(r@[r@.len() - 1] == m);
                        assert(r@.contains(m2));
                    }
                }
            }
            i += 1;
        }
        proof {
            assert forall|m: Move| #[trigger] r@.contains(m) <==> move_changes(self@.cells, m) by {
                assert(move_index(m) < 4);
            }
        }
        r
    }

    /// Applies a move for real: shifts and scores, and if that changed the
    /// board, spawns one random tile and counts the move.  Returns whether
    /// the move was effective; an ineffective move leaves the board exactly
    /// as it was.
    pub fn make_move(&mut self, input: Move) -> (b: bool)
        ensures
            b == move_changes(old(self)@.cells, input),
            !b ==> final(self)@.cells == old(self)@.cells && final(self)@.score == old(
                self,
            )@.score && final(self)@.num_moves == old(self)@.num_moves,
            b ==> spawn_result(shift_cells(old(self)@.cells, input), final(self)@.cells),
            b ==> final(self)@.score == sat_add_spec(
                old(self)@.score,
                shift_gain(old(self)@.cells, input),
            ),
            b ==> final(self)@.num_moves == sat_add_spec(old(self)@.num_moves, 1),
            b ==> exists|i: int|
                0 <= i < 16 && #[trigger] shift_cells(old(self)@.cells, input)[i] == 0,
            move_applied(old(self)@, input, final(self)@),
    {
        let before: [u8; 16] = *self.get_state();
        self.shift(input);
        let unchanged = arrays16_equal(&before, self.get_state());
        if unchanged {
            proof {
                lemma_unchanged_no_gain(old(self)@.cells, input);
                assert(self@ =~= old(self)@);
            }
            return false;
        }
        proof {
            lemma_effective_shift_leaves_space(old(self)@.cells, input);
        }
        self.generate_tile();
        self.num_moves = sat_add(self.num_moves, 1);
        true
    }
}

impl Default for Game {
    /// A fresh board: empty except for two randomly spawned tiles.
    fn default() -> (g: Game)
        ensures
            g@.score == 0,
            g@.num_moves == 0,
            exists|mid: Seq<u8>|
                #[trigger] spawn_result(empty_cells16(), mid) && spawn_result(mid, g@.cells),
    {
        let mut g = Game::empty();
        g.generate_tile();
        let ghost mid = g@.cells;
        g.generate_tile();
        proof {
            assert(spawn_result(empty_cells16(), mid) && spawn_result(mid, g@.cells));
        }
        g
    }
}


} // verus!
