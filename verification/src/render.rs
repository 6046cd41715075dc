//! Text rendering of a world: one line per grid row, each cell's grain
//! count printed as decimal digits with no delimiter, rows separated by
//! newlines. This is a debugging aid, not a machine-parseable format:
//! digit runs of adjacent cells merge once any count exceeds nine.

use crate::model::{wf, Model};
use crate::world::World;
use vstd::prelude::*;
use vstd::string::{StrSliceExecFns, StringExecFns};

verus! {

/// The digit character for a value below ten.
pub open spec fn digit_char(d: int) -> char {
    if d == 0 {
        '0'
    } else if d == 1 {
        '1'
    } else if d == 2 {
        '2'
    } else if d == 3 {
        '3'
    } else if d == 4 {
        '4'
    } else if d == 5 {
        '5'
    } else if d == 6 {
        '6'
    } else if d == 7 {
        '7'
    } else if d == 8 {
        '8'
    } else {
        '9'
    }
}

/// Decimal digits of `n`, most significant first; zero prints as "0".
pub open spec fn decimal(n: int) -> Seq<char>
    decreases n,
{
    if n < 10 {
        seq![digit_char(n)]
    } else {
        decimal(n / 10).push(digit_char(n % 10))
    }
}

/// Concatenated decimal digits of the cells `lo..hi`.
pub open spec fn cells_text(cells: Seq<u32>, lo: int, hi: int) -> Seq<char>
    decreases hi - lo,
{
    if lo >= hi {
        Seq::empty()
    } else {
        cells_text(cells, lo, hi - 1) + decimal(cells[hi - 1] as int)
    }
}

/// The first `r` grid rows as text: each row's cells printed digit to
/// digit, each row closed by a newline.
pub open spec fn rows_text(cells: Seq<u32>, w: int, r: int) -> Seq<char>
    decreases r,
{
    if r <= 0 {
        Seq::empty()
    } else {
        rows_text(cells, w, r - 1) + cells_text(cells, (r - 1) * w, (r - 1) * w + w) + seq!['\n']
    }
}

/// Full text rendering of a world: all its rows.
pub open spec fn render_text(m: Model) -> Seq<char> {
    rows_text(m.cells, m.width, m.height)
}

/// Append the decimal digits of `n`, most significant first.
fn push_decimal(out: &mut String, n: u32)
    ensures
        final(out)@ == old(out)@ + decimal(n as int),
    decreases n,
{
    let ghost entry = out@;
    if n >= 10 {
        push_decimal(out, n / 10);
    }
    let d: u32 = n % 10;
    let digits_lit: &str = "0123456789";
    proof {
        reveal_strlit("0123456789");
    }
    let ds: &str = digits_lit.substring_ascii(d as usize, d as usize + 1);
    proof {
        assert(ds@ =~= seq![digit_char(d as int)]);
    }
    out.append(ds);
    proof {
        if n < 10 {
            assert(out@ =~= entry + decimal(n as int));
        } else {
            assert(decimal(n as int) == decimal(n as int / 10).push(digit_char(n as int % 10)));
            assert(out@ =~= entry + decimal(n as int));
        }
    }
}

impl World {
    /// Text rendering of the grid: one line per row, each cell's grain
    /// count printed consecutively with no delimiter, rows separated by
    /// newlines.
    #[verifier::loop_isolation(false)]
    pub fn render(&self) -> (text: String)
        requires
            wf(self@),
        ensures
            text@ == render_text(self@),
    {
        let ghost m = self@;
        let ghost gw: int = m.width;
        let mut out: String = String::new();
        let mut row: u32 = 0;
        while row < self.get_height()
            invariant
                row <= m.height,
                out@ == rows_text(m.cells, gw, row as int),
            decreases m.height - row,
        {
            let mut col: u32 = 0;
            while col < self.get_width()
                invariant
                    row < m.height,
                    col <= m.width,
                    out@ == rows_text(m.cells, gw, row as int) + cells_text(
                        m.cells,
                        row as int * gw,
                        row as int * gw + col,
                    ),
                decreases m.width - col,
            {
                let count: u32 = self.get_cell(row, col);
                let ghost before = out@;
                push_decimal(&mut out, count);
                proof {
                    assert(cells_text(m.cells, row as int * gw, row as int * gw + (col + 1))
                        == cells_text(m.cells, row as int * gw, row as int * gw + col) + decimal(
                        m.cells[row as int * gw + col] as int,
                    ));
                    assert(out@ =~= rows_text(m.cells, gw, row as int) + cells_text(
                        m.cells,
                        row as int * gw,
                        row as int * gw + (col + 1),
                    ));
                }
                col = col + 1;
            }
            let ghost before_nl = out@;
            proof {
                reveal_strlit("\n");
            }
            out.append("\n");
            proof {
                assert("\n"@ =~= seq!['\n']);
                assert(rows_text(m.cells, gw, row as int + 1) == rows_text(m.cells, gw, row as int)
                    + cells_text(m.cells, row as int * gw, row as int * gw + gw) + seq!['\n']);
                assert(out@ =~= rows_text(m.cells, gw, row as int + 1));
            }
            row = row + 1;
        }
        out
    }
}

} // verus!
