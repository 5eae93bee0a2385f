use vstd::prelude::*;

use crate::bits::{bit_of, lemma_bit_of_and, lemma_bit_of_low_ones, lemma_bit_of_or, lemma_bit_of_shl, lemma_bit_of_zero};

verus! {

/// A grid of `width` columns and `height` rows fits in one 64-bit word.
pub open spec fn valid_shape(width: int, height: int) -> bool {
    0 < width && 0 < height && width * height <= 64
}

/// The bit that holds cell (`col`, `row`): cells are laid out row by row from
/// the most significant bit down, so the top-left cell is bit 63.
pub open spec fn cell_bit(width: int, col: int, row: int) -> u64 {
    (63 - (row * width + col)) as u64
}

/// The number of low-order bits of the word that hold no cell.
pub open spec fn unused_bits(width: int, height: int) -> int {
    64 - width * height
}

/// The grid that a word holds for a given shape: `grid[row][col]` is the
/// bit of cell (`col`, `row`).
pub open spec fn word_grid(width: nat, height: nat, data: u64) -> Seq<Seq<bool>> {
    Seq::new(height, |row: int| Seq::new(width, |col: int| bit_of(data, cell_bit(width as int, col, row))))
}

/// The all-false grid of a shape.
pub open spec fn blank_grid(width: nat, height: nat) -> Seq<Seq<bool>> {
    Seq::new(height, |row: int| Seq::new(width, |col: int| false))
}

/// The grid whose row `row` is given by the low `width` bits of `rows[row]`,
/// bit `width - 1` being the leftmost column.
pub open spec fn rows_grid(width: nat, rows: Seq<u64>) -> Seq<Seq<bool>> {
    Seq::new(rows.len(), |row: int| Seq::new(width, |col: int| bit_of(rows[row], (width - 1 - col) as u64)))
}

/// Each row moved `n` columns to the left: column `col` takes column `col + n`
/// of the same row, and the `n` rightmost columns become false.
pub open spec fn shift_left_grid(grid: Seq<Seq<bool>>, n: int) -> Seq<Seq<bool>> {
    Seq::new(grid.len(), |row: int| Seq::new(grid[row].len(), |col: int|
        col + n < grid[row].len() && grid[row][col + n]))
}

/// Each row moved `n` columns to the right: column `col` takes column `col - n`
/// of the same row, and the `n` leftmost columns become false.
pub open spec fn shift_right_grid(grid: Seq<Seq<bool>>, n: int) -> Seq<Seq<bool>> {
    Seq::new(grid.len(), |row: int| Seq::new(grid[row].len(), |col: int|
        col - n >= 0 && grid[row][col - n]))
}

/// All the unused low-order bits of `data` are clear.
pub open spec fn unused_clear(width: int, height: int, data: u64) -> bool {
    forall|i: u64| i < unused_bits(width, height) ==> !#[trigger] bit_of(data, i)
}

/// Neither side of a valid shape exceeds 64.
pub proof fn lemma_valid_shape_sides(width: int, height: int)
    requires
        valid_shape(width, height),
    ensures
        width <= 64,
        height <= 64,
{
    assert(width <= width * height && height <= width * height) by (nonlinear_arith)
        requires
            0 < width,
            0 < height,
    ;
}

/// Every cell of a valid shape has a bit of its own, above the unused bits.
pub proof fn lemma_cell_bit_bounds(width: int, height: int, col: int, row: int)
    requires
        valid_shape(width, height),
        0 <= col < width,
        0 <= row < height,
    ensures
        0 <= row * width + col < width * height,
        unused_bits(width, height) <= cell_bit(width, col, row) < 64,
        cell_bit(width, col, row) == 63 - (row * width + col),
{
    assert(row * width + col < width * height) by (nonlinear_arith)
        requires
            0 <= col < width,
            0 <= row < height,
    ;
    assert(0 <= row * width) by (nonlinear_arith)
        requires
            0 <= row,
            0 < width,
    ;
}

/// Cells of different rows, or of different columns, have different bits.
pub proof fn lemma_cell_bit_injective(width: int, height: int, c1: int, r1: int, c2: int, r2: int)
    requires
        valid_shape(width, height),
        0 <= c1 < width,
        0 <= r1 < height,
        0 <= c2 < width,
        0 <= r2 < height,
        cell_bit(width, c1, r1) == cell_bit(width, c2, r2),
    ensures
        c1 == c2,
        r1 == r2,
{
    lemma_cell_bit_bounds(width, height, c1, r1);
    lemma_cell_bit_bounds(width, height, c2, r2);
    if r1 < r2 {
        assert((r1 + 1) * width <= r2 * width) by (nonlinear_arith)
            requires
                r1 + 1 <= r2,
                0 < width,
        ;
        assert(false) by (nonlinear_arith)
            requires
                (r1 + 1) * width <= r2 * width,
                r1 * width + c1 == r2 * width + c2,
                c1 < width,
                0 <= c2,
        ;
    } else if r2 < r1 {
        assert((r2 + 1) * width <= r1 * width) by (nonlinear_arith)
            requires
                r2 + 1 <= r1,
                0 < width,
        ;
        assert(false) by (nonlinear_arith)
            requires
                (r2 + 1) * width <= r1 * width,
                r1 * width + c1 == r2 * width + c2,
                c2 < width,
                0 <= c1,
        ;
    }
}

/// Every bit above the unused bits holds some cell.
pub proof fn lemma_bit_is_cell(width: int, height: int, i: u64) -> (cr: (int, int))
    requires
        valid_shape(width, height),
        unused_bits(width, height) <= i < 64,
    ensures
        0 <= cr.0 < width,
        0 <= cr.1 < height,
        cell_bit(width, cr.0, cr.1) == i,
{
    let k: int = 63 - i;
    let row = k / width;
    let col = k % width;
    assert(k == row * width + col && 0 <= col < width && 0 <= row) by (nonlinear_arith)
        requires
            0 < width,
            0 <= k,
            row == k / width,
            col == k % width,
    ;
    assert(row < height) by (nonlinear_arith)
        requires
            k == row * width + col,
            0 <= col,
            k < width * height,
            0 < width,
    ;
    (col, row)
}

/// Rows `row` and below are still empty in `acc`: all bits under the first
/// `row` rows are clear.
pub open spec fn rows_empty_from(acc: u64, width: int, row: int) -> bool {
    forall|i: u64| i < 64 - row * width ==> !#[trigger] bit_of(acc, i)
}

/// Adds the low `width` bits of `bits` to `acc` as row `row`, the leftmost
/// column taking the highest of those bits. Higher bits of `bits` are ignored.
pub(crate) fn pack_row(acc: u64, width: u32, row: u32, bits: u64) -> (r: u64)
    requires
        0 < width,
        (row + 1) * width <= 64,
        rows_empty_from(acc, width as int, row as int),
    ensures
        rows_empty_from(r, width as int, row + 1),
        forall|i: u64|
            64 - row * width <= i < 64 ==> #[trigger] bit_of(r, i) == bit_of(acc, i),
        forall|c: int|
            0 <= c < width ==> #[trigger] bit_of(r, cell_bit(width as int, c, row as int))
                == bit_of(bits, (width - 1 - c) as u64),
{
    assert(row + 1 <= 64) by (nonlinear_arith)
        requires
            (row + 1) * width <= 64,
            0 < width,
    ;
    let rows_through: u32 = row + 1;
    assert(row * width + width == rows_through * width) by (nonlinear_arith)
        requires
            rows_through == row + 1,
    ;
    let shift: u32 = 64 - rows_through * width;
    let field = (bits & (u64::MAX >> (64 - width))) << shift;
    let r = acc | field;
    assert forall|i: u64| i < 64 implies #[trigger] bit_of(r, i) == (bit_of(acc, i) || (
    shift <= i < shift + width && bit_of(bits, (i - shift) as u64))) by {
        lemma_bit_of_or(acc, field, i);
        lemma_bit_of_shl(bits & (u64::MAX >> (64 - width)), shift as u64, i);
        if shift <= i {
            lemma_bit_of_and(bits, u64::MAX >> (64 - width), (i - shift) as u64);
            lemma_bit_of_low_ones(width as u64, (i - shift) as u64);
        }
    }
    assert forall|c: int| 0 <= c < width implies #[trigger] bit_of(r, cell_bit(width as int, c, row as int))
        == bit_of(bits, (width - 1 - c) as u64) by {
        let i = cell_bit(width as int, c, row as int);
        assert(i == shift + (width - 1 - c));
        assert(!bit_of(acc, i));
    }
    r
}

/// A word with `row_bits` (its low `width` bits) repeated in every row of a
/// `width` by `height` grid, and every unused bit clear.
pub fn row_mask(width: u32, height: u32, row_bits: u64) -> (m: u64)
    requires
        valid_shape(width as int, height as int),
    ensures
        forall|c: int, r: int|
            0 <= c < width && 0 <= r < height ==> #[trigger] bit_of(m, cell_bit(width as int, c, r))
                == bit_of(row_bits, (width - 1 - c) as u64),
        unused_clear(width as int, height as int, m),
{
    let mut m: u64 = 0;
    proof {
        assert forall|i: u64| i < 64 - 0 * width implies !#[trigger] bit_of(m, i) by {
            lemma_bit_of_zero(i);
        }
    }
    let mut row: u32 = 0;
    while row < height
        invariant
            valid_shape(width as int, height as int),
            row <= height,
            rows_empty_from(m, width as int, row as int),
            forall|c: int, r: int|
                0 <= c < width && 0 <= r < row ==> #[trigger] bit_of(m, cell_bit(width as int, c, r))
                    == bit_of(row_bits, (width - 1 - c) as u64),
        decreases height - row,
    {
        assert((row + 1) * width <= height * width) by (nonlinear_arith)
            requires
                row < height,
                0 < width,
        ;
        let next = pack_row(m, width, row, row_bits);
        proof {
            assert forall|c: int, r: int|
                0 <= c < width && 0 <= r < row + 1 implies #[trigger] bit_of(next, cell_bit(width as int, c, r))
                    == bit_of(row_bits, (width - 1 - c) as u64) by {
                if r < row {
                    lemma_cell_bit_bounds(width as int, height as int, c, r);
                    assert((r + 1) * width <= row * width) by (nonlinear_arith)
                        requires
                            r + 1 <= row,
                            0 < width,
                    ;
                    assert(r * width + width == (r + 1) * width) by (nonlinear_arith);
                }
            }
        }
        m = next;
        row = row + 1;
    }
    m
}

} // verus!
