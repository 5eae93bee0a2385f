use vstd::prelude::*;

use crate::bits::{
    bit_of, lemma_and_single_nonzero, lemma_bit_of_and, lemma_bit_of_low_ones, lemma_bit_of_not,
    lemma_bit_of_or, lemma_bit_of_shl, lemma_bit_of_shr, lemma_bit_of_single, lemma_bit_of_zero,
    lemma_shr_eq_from_bits,
};
use crate::layout::{
    blank_grid, cell_bit, lemma_bit_is_cell, lemma_cell_bit_bounds, lemma_cell_bit_injective,
    lemma_valid_shape_sides, pack_row, row_mask, rows_empty_from, rows_grid, shift_left_grid, shift_right_grid, unused_clear, valid_shape, word_grid,
};

verus! {

/// A grid of `width` by `height` booleans, packed into one 64-bit word.
///
/// Cell (`col`, `row`) is bit `63 - (row * width + col)` of the word; the
/// `64 - width * height` low-order bits hold no cell and are ignored.
#[derive(Clone, Copy, Debug)]
pub struct Bitarea {
    width: u32,
    height: u32,
    data: u64,
}

impl Bitarea {
    #[verifier::type_invariant]
    spec fn shape_fits(self) -> bool {
        valid_shape(self.width as int, self.height as int)
    }

    pub closed spec fn spec_width(&self) -> u32 {
        self.width
    }

    pub closed spec fn spec_height(&self) -> u32 {
        self.height
    }

    pub closed spec fn spec_data(&self) -> u64 {
        self.data
    }

    /// The shape is positive and fits in one word.
    pub open spec fn wf(&self) -> bool {
        valid_shape(self.width() as int, self.height() as int)
    }

    /// The unused low-order bits of the word are all clear.
    pub open spec fn is_canonical(&self) -> bool {
        unused_clear(self.width() as int, self.height() as int, self.data())
    }

    /// The number of columns.
    #[verifier::when_used_as_spec(spec_width)]
    pub fn width(&self) -> (r: u32)
        ensures
            r == self.spec_width(),
    {
        self.width
    }

    /// The number of rows.
    #[verifier::when_used_as_spec(spec_height)]
    pub fn height(&self) -> (r: u32)
        ensures
            r == self.spec_height(),
    {
        self.height
    }

    /// The packed word, unused bits included.
    #[verifier::when_used_as_spec(spec_data)]
    pub fn data(&self) -> (r: u64)
        ensures
            r == self.spec_data(),
    {
        self.data
    }

    /// An all-false grid of the given shape.
    pub fn new(width: u32, height: u32) -> (r: Bitarea)
        requires
            valid_shape(width as int, height as int),
        ensures
            r.wf(),
            r.width() == width,
            r.height() == height,
            r.data() == 0,
            r@ == blank_grid(width as nat, height as nat),
    {
        let r = Bitarea { width, height, data: 0 };
        proof {
            assert forall|row: int, col: int| 0 <= row < height && 0 <= col < width implies
                !#[trigger] bit_of(0, cell_bit(width as int, col, row)) by {
                lemma_cell_bit_bounds(width as int, height as int, col, row);
                lemma_bit_of_zero(cell_bit(width as int, col, row));
            }
            assert(r@ =~~= blank_grid(width as nat, height as nat));
        }
        r
    }

    /// A grid of the given shape holding the word `data` as it stands,
    /// unused bits included.
    pub fn from_bits(width: u32, height: u32, data: u64) -> (r: Bitarea)
        requires
            valid_shape(width as int, height as int),
        ensures
            r.wf(),
            r.width() == width,
            r.height() == height,
            r.data() == data,
    {
        Bitarea { width, height, data }
    }

    /// A grid built from one word per row, top row first: the low `width`
    /// bits of `rows[row]` give that row, bit `width - 1` being the leftmost
    /// column. Higher bits of each word are ignored, and the unused bits of
    /// the result are clear.
    pub fn from_rows(width: u32, height: u32, rows: &[u64]) -> (r: Bitarea)
        requires
            valid_shape(width as int, height as int),
            rows@.len() == height,
        ensures
            r.wf(),
            r.width() == width,
            r.height() == height,
            r@ == rows_grid(width as nat, rows@),
            r.is_canonical(),
    {
        let mut data: u64 = 0;
        proof {
            assert forall|i: u64| i < 64 - 0 * width implies !#[trigger] bit_of(data, i) by {
                lemma_bit_of_zero(i);
            }
        }
        let mut row: u32 = 0;
        while row < height
            invariant
                valid_shape(width as int, height as int),
                rows@.len() == height,
                row <= height,
                rows_empty_from(data, width as int, row as int),
                forall|c: int, r: int|
                    0 <= c < width && 0 <= r < row ==> #[trigger] bit_of(
                        data,
                        cell_bit(width as int, c, r),
                    ) == bit_of(rows@[r], (width - 1 - c) as u64),
            decreases height - row,
        {
            assert((row + 1) * width <= height * width) by (nonlinear_arith)
                requires
                    row < height,
                    0 < width,
            ;
            let next = pack_row(data, width, row, rows[row as usize]);
            proof {
                assert forall|c: int, r: int|
                    0 <= c < width && 0 <= r < row + 1 implies #[trigger] bit_of(
                        next,
                        cell_bit(width as int, c, r),
                    ) == bit_of(rows@[r], (width - 1 - c) as u64) by {
                    if r < row {
                        lemma_cell_bit_bounds(width as int, height as int, c, r);
                        assert((r + 1) * width <= row * width) by (nonlinear_arith)
                            requires
                                r + 1 <= row,
                                0 < width,
                        ;
                        assert(r * width + width == (r + 1) * width) by (nonlinear_arith);
                    }
                }
            }
            data = next;
            row = row + 1;
        }
        let r = Bitarea { width, height, data };
        proof {
            assert(height * width == width * height) by (nonlinear_arith);
            assert(r@ =~~= rows_grid(width as nat, rows@));
        }
        r
    }

    /// Whether cell (`col`, `row`) is set.
    pub fn get(self, col: u32, row: u32) -> (b: bool)
        requires
            col < self.width(),
            row < self.height(),
        ensures
            b == self@[row as int][col as int],
    {
        proof {
            use_type_invariant(&self);
            lemma_cell_bit_bounds(self.width as int, self.height as int, col as int, row as int);
        }
        let pos: u32 = 63 - (row * self.width + col);
        proof {
            lemma_and_single_nonzero(self.data, pos as u64);
        }
        self.data & (1u64 << pos) != 0
    }

    /// Sets cell (`col`, `row`) to `val`, leaving every other bit of the word
    /// as it was.
    pub fn set(&mut self, col: u32, row: u32, val: bool)
        requires
            col < old(self).width(),
            row < old(self).height(),
        ensures
            final(self).width() == old(self).width(),
            final(self).height() == old(self).height(),
            final(self)@ == old(self)@.update(row as int, old(self)@[row as int].update(col as int, val)),
            forall|i: u64|
                i < 64 && i != cell_bit(old(self).width() as int, col as int, row as int)
                    ==> #[trigger] bit_of(final(self).data(), i) == bit_of(old(self).data(), i),
    {
        proof {
            use_type_invariant(&*self);
            lemma_cell_bit_bounds(self.width as int, self.height as int, col as int, row as int);
        }
        let ghost before = *self;
        let pos: u32 = 63 - (row * self.width + col);
        let mask: u64 = 1u64 << pos;
        if val {
            self.data = self.data | mask;
        } else {
            self.data = self.data & !mask;
        }
        proof {
            assert forall|i: u64| i < 64 implies #[trigger] bit_of(self.data, i) == (if i == pos {
                val
            } else {
                bit_of(before.data, i)
            }) by {
                lemma_bit_of_single(pos as u64, i);
                if val {
                    lemma_bit_of_or(before.data, mask, i);
                } else {
                    lemma_bit_of_and(before.data, !mask, i);
                    lemma_bit_of_not(mask, i);
                }
            }
            let w = self.width as int;
            let h = self.height as int;
            assert forall|r: int, c: int| 0 <= r < h && 0 <= c < w implies #[trigger] self@[r][c]
                == before@.update(row as int, before@[row as int].update(col as int, val))[r][c] by {
                lemma_cell_bit_bounds(w, h, c, r);
                if r != row || c != col {
                    if cell_bit(w, c, r) == pos {
                        lemma_cell_bit_injective(w, h, c, r, col as int, row as int);
                    }
                }
            }
            assert(self@ =~~= before@.update(row as int, before@[row as int].update(col as int, val)));
        }
    }

    /// Moves every row `n` columns to the left: the `n` leftmost columns of a
    /// row are dropped and its `n` rightmost columns become false. Bits never
    /// pass from one row to another, and the unused bits of the result are clear.
    pub fn shl(self, n: u32) -> (r: Bitarea)
        ensures
            r.wf(),
            r.width() == self.width(),
            r.height() == self.height(),
            r@ == shift_left_grid(self@, n as int),
            r.is_canonical(),
    {
        proof {
            use_type_invariant(&self);
            lemma_valid_shape_sides(self.width as int, self.height as int);
        }
        let w = self.width;
        let h = self.height;
        if n >= w {
            let r = Bitarea { width: w, height: h, data: 0 };
            proof {
                assert forall|i: u64| i < 64 implies !#[trigger] bit_of(0, i) by {
                    lemma_bit_of_zero(i);
                }
                assert forall|row: int, col: int| 0 <= row < h && 0 <= col < w implies
                    #[trigger] r@[row][col] == shift_left_grid(self@, n as int)[row][col] by {
                    lemma_cell_bit_bounds(w as int, h as int, col, row);
                }
                assert(r@ =~~= shift_left_grid(self@, n as int));
            }
            return r;
        }
        let kept: u64 = (u64::MAX >> (64 - (w - n))) << n;
        let mask = row_mask(w, h, kept);
        let data = (self.data << n) & mask;
        let r = Bitarea { width: w, height: h, data };
        proof {
            assert forall|i: u64| i < 64 implies #[trigger] bit_of(data, i) == (n <= i && bit_of(
                self.data,
                (i - n) as u64,
            ) && bit_of(mask, i)) by {
                lemma_bit_of_and(self.data << n, mask, i);
                lemma_bit_of_shl(self.data, n as u64, i);
            }
            assert forall|j: u64| j < 64 implies #[trigger] bit_of(kept, j) == (n <= j < w) by {
                lemma_bit_of_shl(u64::MAX >> (64 - (w - n)) as u64, n as u64, j);
                if n <= j {
                    lemma_bit_of_low_ones((w - n) as u64, (j - n) as u64);
                }
            }
            assert forall|row: int, col: int| 0 <= row < h && 0 <= col < w implies
                #[trigger] r@[row][col] == shift_left_grid(self@, n as int)[row][col] by {
                lemma_cell_bit_bounds(w as int, h as int, col, row);
                let i = cell_bit(w as int, col, row);
                assert(bit_of(mask, i) == bit_of(kept, (w - 1 - col) as u64));
                if col + n < w {
                    lemma_cell_bit_bounds(w as int, h as int, col + n, row);
                    assert((i - n) as u64 == cell_bit(w as int, col + n, row));
                }
            }
            assert(r@ =~~= shift_left_grid(self@, n as int));
        }
        r
    }

    /// Moves every row `n` columns to the right: the `n` rightmost columns of a
    /// row are dropped and its `n` leftmost columns become false. Bits never
    /// pass from one row to another, and the unused bits of the result are clear.
    pub fn shr(self, n: u32) -> (r: Bitarea)
        ensures
            r.wf(),
            r.width() == self.width(),
            r.height() == self.height(),
            r@ == shift_right_grid(self@, n as int),
            r.is_canonical(),
    {
        proof {
            use_type_invariant(&self);
            lemma_valid_shape_sides(self.width as int, self.height as int);
        }
        let w = self.width;
        let h = self.height;
        if n >= w {
            let r = Bitarea { width: w, height: h, data: 0 };
            proof {
                assert forall|i: u64| i < 64 implies !#[trigger] bit_of(0, i) by {
                    lemma_bit_of_zero(i);
                }
                assert forall|row: int, col: int| 0 <= row < h && 0 <= col < w implies
                    #[trigger] r@[row][col] == shift_right_grid(self@, n as int)[row][col] by {
                    lemma_cell_bit_bounds(w as int, h as int, col, row);
                }
                assert(r@ =~~= shift_right_grid(self@, n as int));
            }
            return r;
        }
        let kept: u64 = u64::MAX >> (64 - (w - n));
        let mask = row_mask(w, h, kept);
        let data = (self.data >> n) & mask;
        let r = Bitarea { width: w, height: h, data };
        proof {
            assert forall|i: u64| i < 64 implies #[trigger] bit_of(data, i) == (i + n < 64 && bit_of(
                self.data,
                (i + n) as u64,
            ) && bit_of(mask, i)) by {
                lemma_bit_of_and(self.data >> n, mask, i);
                lemma_bit_of_shr(self.data, n as u64, i);
            }
            assert forall|j: u64| j < 64 implies #[trigger] bit_of(kept, j) == (j < w - n) by {
                lemma_bit_of_low_ones((w - n) as u64, j);
            }
            assert forall|row: int, col: int| 0 <= row < h && 0 <= col < w implies
                #[trigger] r@[row][col] == shift_right_grid(self@, n as int)[row][col] by {
                lemma_cell_bit_bounds(w as int, h as int, col, row);
                let i = cell_bit(w as int, col, row);
                assert(bit_of(mask, i) == bit_of(kept, (w - 1 - col) as u64));
                if col - n >= 0 {
                    lemma_cell_bit_bounds(w as int, h as int, col - n, row);
                    assert((i + n) as u64 == cell_bit(w as int, col - n, row));
                }
            }
            assert(r@ =~~= shift_right_grid(self@, n as int));
        }
        r
    }
}

impl View for Bitarea {
    type V = Seq<Seq<bool>>;

    /// The cells, row by row: `self@[row][col]`.
    open spec fn view(&self) -> Seq<Seq<bool>> {
        word_grid(self.spec_width() as nat, self.spec_height() as nat, self.spec_data())
    }
}

impl Bitarea {
    /// Two grids are the same when their shapes and all their cells agree;
    /// the unused bits of their words play no part.
    pub open spec fn same_grid(&self, other: &Bitarea) -> bool {
        &&& self.width() == other.width()
        &&& self.height() == other.height()
        &&& self@ == other@
    }
}

impl PartialEq for Bitarea {
    fn eq(&self, other: &Bitarea) -> (r: bool) {
        proof {
            use_type_invariant(self);
            use_type_invariant(other);
        }
        if self.width != other.width || self.height != other.height {
            return false;
        }
        let w = self.width;
        let h = self.height;
        proof {
            lemma_valid_shape_sides(w as int, h as int);
            assert(1 <= w * h) by (nonlinear_arith)
                requires
                    0 < w,
                    0 < h,
            ;
        }
        let unused: u32 = 64 - w * h;
        let r = (self.data >> unused) == (other.data >> unused);
        proof {
            if r {
                assert forall|row: int, col: int| 0 <= row < h && 0 <= col < w implies
                    #[trigger] self@[row][col] == other@[row][col] by {
                    lemma_cell_bit_bounds(w as int, h as int, col, row);
                    let i = cell_bit(w as int, col, row);
                    lemma_bit_of_shr(self.data, unused as u64, (i - unused) as u64);
                    lemma_bit_of_shr(other.data, unused as u64, (i - unused) as u64);
                }
                assert(self@ =~~= other@);
            } else if self@ == other@ {
                assert forall|i: u64| unused <= i < 64 implies #[trigger] bit_of(self.data, i)
                    == bit_of(other.data, i) by {
                    let cr = lemma_bit_is_cell(w as int, h as int, i);
                    assert(self@[cr.1][cr.0] == other@[cr.1][cr.0]);
                }
                lemma_shr_eq_from_bits(self.data, other.data, unused as u64);
            }
        }
        r
    }
}

impl Eq for Bitarea {
}

impl vstd::std_specs::cmp::PartialEqSpecImpl for Bitarea {
    open spec fn obeys_eq_spec() -> bool {
        true
    }

    open spec fn eq_spec(&self, other: &Bitarea) -> bool {
        self.same_grid(other)
    }
}

} // verus!
