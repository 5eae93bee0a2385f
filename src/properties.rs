use vstd::prelude::*;

use crate::bitarea::Bitarea;
use crate::bits::bit_of;
use crate::layout::{
    blank_grid, cell_bit, lemma_cell_bit_bounds, rows_grid, shift_left_grid, shift_right_grid,
    unused_bits, valid_shape,
};

verus! {

/// Reading cell (`col`, `row`) of the grid built from `rows` gives back bit
/// `width - 1 - col` of `rows[row]`.
pub proof fn lemma_from_rows_round_trip(width: nat, rows: Seq<u64>, col: int, row: int)
    requires
        valid_shape(width as int, rows.len() as int),
        0 <= col < width,
        0 <= row < rows.len(),
    ensures
        rows_grid(width, rows).len() == rows.len(),
        rows_grid(width, rows)[row].len() == width,
        rows_grid(width, rows)[row][col] == bit_of(rows[row], (width - 1 - col) as u64),
{
}

/// A row of a shifted grid depends on the same row of the operand alone: two
/// grids that agree on row `row` still agree on it once shifted, whatever
/// their other rows hold.
pub proof fn lemma_shift_rows_independent(g1: Seq<Seq<bool>>, g2: Seq<Seq<bool>>, n: int, row: int)
    requires
        g1.len() == g2.len(),
        0 <= row < g1.len(),
        g1[row] == g2[row],
    ensures
        shift_left_grid(g1, n)[row] == shift_left_grid(g2, n)[row],
        shift_right_grid(g1, n)[row] == shift_right_grid(g2, n)[row],
{
    assert(shift_left_grid(g1, n)[row] =~= shift_left_grid(g2, n)[row]);
    assert(shift_right_grid(g1, n)[row] =~= shift_right_grid(g2, n)[row]);
}

/// Shifting by the width or more, either way, leaves every cell false.
pub proof fn lemma_shift_saturates(b: Bitarea, n: int)
    requires
        b.wf(),
        n >= b.width(),
    ensures
        shift_left_grid(b@, n) == blank_grid(b.width() as nat, b.height() as nat),
        shift_right_grid(b@, n) == blank_grid(b.width() as nat, b.height() as nat),
{
    assert forall|row: int, col: int| 0 <= row < b.height() && 0 <= col < b.width() implies
        !#[trigger] shift_right_grid(b@, n)[row][col] by {
    }
    assert(shift_left_grid(b@, n) =~~= blank_grid(b.width() as nat, b.height() as nat));
    assert(shift_right_grid(b@, n) =~~= blank_grid(b.width() as nat, b.height() as nat));
}

/// Shifting by zero, either way, changes no cell.
pub proof fn lemma_shift_zero_identity(b: Bitarea)
    requires
        b.wf(),
    ensures
        shift_left_grid(b@, 0) == b@,
        shift_right_grid(b@, 0) == b@,
{
    assert(shift_left_grid(b@, 0) =~~= b@);
    assert(shift_right_grid(b@, 0) =~~= b@);
}

/// After a shift by `n` below the width, column `col` holds what column
/// `col + n` (left shift) or `col - n` (right shift) of the same row held, and
/// the `n` columns vacated at the edge are false.
pub proof fn lemma_shift_columns(b: Bitarea, n: int, row: int, col: int)
    requires
        b.wf(),
        0 <= n < b.width(),
        0 <= row < b.height(),
        0 <= col < b.width(),
    ensures
        col + n < b.width() ==> shift_left_grid(b@, n)[row][col] == b@[row][col + n],
        col >= b.width() - n ==> !shift_left_grid(b@, n)[row][col],
        col >= n ==> shift_right_grid(b@, n)[row][col] == b@[row][col - n],
        col < n ==> !shift_right_grid(b@, n)[row][col],
{
}

/// Two grids of one shape whose words agree on every used bit are the same
/// grid, however their unused bits differ.
pub proof fn lemma_eq_ignores_unused(a: Bitarea, b: Bitarea)
    requires
        a.wf(),
        a.width() == b.width(),
        a.height() == b.height(),
        forall|i: u64|
            unused_bits(a.width() as int, a.height() as int) <= i < 64 ==> #[trigger] bit_of(
                a.data(),
                i,
            ) == bit_of(b.data(), i),
    ensures
        a.same_grid(&b),
{
    let w = a.width() as int;
    let h = a.height() as int;
    assert forall|row: int, col: int| 0 <= row < h && 0 <= col < w implies #[trigger] a@[row][col]
        == b@[row][col] by {
        lemma_cell_bit_bounds(w, h, col, row);
        assert(bit_of(a.data(), cell_bit(w, col, row)) == bit_of(b.data(), cell_bit(w, col, row)));
    }
    assert(a@ =~~= b@);
}

} // verus!
