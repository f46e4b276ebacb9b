//! The text form of a board: box separator lines every three rows, `| `
//! before every three columns, digits as numerals and empty cells as blanks.
use crate::board::{Board, Grid};
use vstd::prelude::*;
use vstd::string::StringExecFns;

verus! {

/// The numeral of a digit 1–9.
pub open spec fn numeral(d: u8) -> char {
    if d == 1 {
        '1'
    } else if d == 2 {
        '2'
    } else if d == 3 {
        '3'
    } else if d == 4 {
        '4'
    } else if d == 5 {
        '5'
    } else if d == 6 {
        '6'
    } else if d == 7 {
        '7'
    } else if d == 8 {
        '8'
    } else {
        '9'
    }
}

/// A cell's text: its numeral or a blank, then a space.
pub open spec fn cell_text(v: Option<u8>) -> Seq<char> {
    match v {
        Some(d) => seq![numeral(d), ' '],
        None => seq![' ', ' '],
    }
}

/// The line drawn above every third row and below the last.
pub open spec fn separator_line() -> Seq<char> {
    Seq::new(25, |i: int| '-').push('\n')
}

/// The text of the first `n` cells of a row, with `| ` before every three.
pub open spec fn cells_text(row: Seq<Option<u8>>, n: int) -> Seq<char>
    decreases n,
{
    if n <= 0 {
        Seq::empty()
    } else {
        cells_text(row, n - 1) + (if (n - 1) % 3 == 0 {
            seq!['|', ' ']
        } else {
            Seq::empty()
        }) + cell_text(row[n - 1])
    }
}

/// The text of the first `n` rows, with a separator line above every three.
pub open spec fn rows_text(g: Grid, n: int) -> Seq<char>
    decreases n,
{
    if n <= 0 {
        Seq::empty()
    } else {
        rows_text(g, n - 1) + (if (n - 1) % 3 == 0 {
            separator_line()
        } else {
            Seq::empty()
        }) + cells_text(g[n - 1], 9) + seq!['|', '\n']
    }
}

/// The whole text of a board.
pub open spec fn board_text(g: Grid) -> Seq<char> {
    rows_text(g, 9) + separator_line()
}

/// The text of a cell.
fn cell_str(v: Option<u8>) -> (r: &'static str)
    requires
        v matches Some(d) ==> 1 <= d <= 9,
    ensures
        r@ == cell_text(v),
{
    proof {
        reveal_strlit("1 ");
        reveal_strlit("2 ");
        reveal_strlit("3 ");
        reveal_strlit("4 ");
        reveal_strlit("5 ");
        reveal_strlit("6 ");
        reveal_strlit("7 ");
        reveal_strlit("8 ");
        reveal_strlit("9 ");
        reveal_strlit("  ");
    }
    let r = match v {
        None => "  ",
        Some(1) => "1 ",
        Some(2) => "2 ",
        Some(3) => "3 ",
        Some(4) => "4 ",
        Some(5) => "5 ",
        Some(6) => "6 ",
        Some(7) => "7 ",
        Some(8) => "8 ",
        Some(_) => "9 ",
    };
    assert(r@ =~= cell_text(v));
    r
}

impl Board {
    /// The board as text, one line per row between separator lines.
    pub fn render(&self) -> (r: String)
        requires
            self.wf(),
        ensures
            r@ == board_text(self@),
    {
        let ghost g = self@;
        let sep = "-------------------------\n";
        proof {
            reveal_strlit("-------------------------\n");
            assert(sep@ =~= separator_line());
        }
        let mut text = String::new();
        let mut i: usize = 0;
        while i < 9
            invariant
                0 <= i <= 9,
                self.wf(),
                g == self@,
                sep@ == separator_line(),
                text@ == rows_text(g, i as int),
            decreases 9 - i,
        {
            let ghost before = text@;
            let ghost head: Seq<char> = if i % 3 == 0 {
                separator_line()
            } else {
                Seq::empty()
            };
            if i % 3 == 0 {
                text.append(sep);
            }
            assert(text@ =~= before + head);
            let row = self.get_row(i);
            let ghost line_start = text@;
            let mut j: usize = 0;
            while j < 9
                invariant
                    0 <= j <= 9,
                    0 <= i < 9,
                    self.wf(),
                    g == self@,
                    row@ == g[i as int],
                    text@ == line_start + cells_text(g[i as int], j as int),
                decreases 9 - j,
            {
                let ghost before = text@;
                let ghost bar: Seq<char> = if j % 3 == 0 {
                    seq!['|', ' ']
                } else {
                    Seq::empty()
                };
                if j % 3 == 0 {
                    proof {
                        reveal_strlit("| ");
                    }
                    text.append("| ");
                }
                assert(text@ =~= before + bar);
                text.append(cell_str(row[j]));
                proof {
                    let cell = cell_text(g[i as int][j as int]);
                    assert(cells_text(g[i as int], j + 1) == cells_text(g[i as int], j as int) + bar
                        + cell);
                    assert(text@ =~= line_start + cells_text(g[i as int], j + 1));
                }
                j += 1;
            }
            text.append("|\n");
            proof {
                reveal_strlit("|\n");
                assert(rows_text(g, i + 1) == rows_text(g, i as int) + head + cells_text(g[i as int], 9)
                    + seq!['|', '\n']);
                assert(text@ =~= rows_text(g, i + 1));
            }
            i += 1;
        }
        text.append(sep);
        text
    }
}

} // verus!
