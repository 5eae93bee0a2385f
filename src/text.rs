use vstd::prelude::*;
use vstd::string::StringExecFns;

use crate::bitarea::Bitarea;

verus! {

/// One row as text: `'1'` for a set cell, `'0'` for a clear one, left to right.
pub open spec fn row_text(row: Seq<bool>) -> Seq<char> {
    row.map_values(|b: bool| if b { '1' } else { '0' })
}

/// The rows as text, top to bottom, separated by line breaks.
pub open spec fn grid_text(grid: Seq<Seq<bool>>) -> Seq<char>
    decreases grid.len(),
{
    if grid.len() == 0 {
        Seq::empty()
    } else if grid.len() == 1 {
        row_text(grid[0])
    } else {
        grid_text(grid.drop_last()) + seq!['\n'] + row_text(grid.last())
    }
}

impl Bitarea {
    /// The grid as text, one line per row, such as `"100\n001"`. The unused
    /// bits of the word never show.
    pub fn render(&self) -> (s: String)
        ensures
            s@ == grid_text(self@),
    {
        let w = self.width();
        let h = self.height();
        let mut s = String::new();
        let mut row: u32 = 0;
        while row < h
            invariant
                w == self.width(),
                h == self.height(),
                self@.len() == h,
                forall|r: int| 0 <= r < h ==> #[trigger] self@[r].len() == w,
                row <= h,
                s@ == grid_text(self@.subrange(0, row as int)),
            decreases h - row,
        {
            let ghost prefix = self@.subrange(0, row as int);
            if row > 0 {
                s.append("\n");
            }
            let ghost base = s@;
            let mut col: u32 = 0;
            while col < w
                invariant
                    w == self.width(),
                    h == self.height(),
                    self@.len() == h,
                    row < h,
                    self@[row as int].len() == w,
                    col <= w,
                    s@ == base + row_text(self@[row as int].subrange(0, col as int)),
                decreases w - col,
            {
                let cell = self.get(col, row);
                if cell {
                    s.append("1");
                } else {
                    s.append("0");
                }
                proof {
                    reveal_strlit("1");
                    reveal_strlit("0");
                    assert("1"@ =~= seq!['1']);
                    assert("0"@ =~= seq!['0']);
                    assert(row_text(self@[row as int].subrange(0, col + 1)) =~= row_text(
                        self@[row as int].subrange(0, col as int),
                    ) + seq![if cell { '1' } else { '0' }]);
                    assert(s@ =~= base + row_text(self@[row as int].subrange(0, col + 1)));
                }
                col = col + 1;
            }
            proof {
                assert(self@[row as int].subrange(0, w as int) =~= self@[row as int]);
                let next = self@.subrange(0, row + 1);
                reveal_strlit("\n");
                assert("\n"@ =~= seq!['\n']);
                assert(next.last() == self@[row as int]);
                if row > 0 {
                    assert(next.drop_last() =~= prefix);
                    assert(s@ =~= grid_text(prefix) + seq!['\n'] + row_text(next.last()));
                } else {
                    assert(s@ =~= row_text(next[0]));
                }
            }
            row = row + 1;
        }
        proof {
            assert(self@.subrange(0, h as int) =~= self@);
        }
        s
    }
}

} // verus!
