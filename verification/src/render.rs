//! Textual rendering of a board, for logging and tests: 9 rows of 9
//! characters (digit or blank), grouped into 3x3 blocks by `|` bars before
//! columns 0, 3 and 6 and after column 8, with a `+---+---+---+` separator
//! line before rows 0, 3 and 6 and after row 8.

use vstd::prelude::*;
use vstd::string::StringExecFns;

use crate::grid::Board;
use crate::grid::cell_index;

verus! {

/// One separator line, newline included.
pub open spec fn sep_line() -> Seq<char> {
    seq!['+', '-', '-', '-', '+', '-', '-', '-', '+', '-', '-', '-', '+', '\n']
}

/// The character a cell renders as: its digit, or a blank when empty.
pub open spec fn cell_char(c: Option<u8>) -> char {
    match c {
        Option::None => ' ',
        Option::Some(d) => {
            if d == 1 {
                '1'
            } else if d == 2 {
                '2'
            } else if d == 3 {
                '3'
            } else if d == 4 {
                '4'
            } else if d == 5 {
                '5'
            } else if d == 6 {
                '6'
            } else if d == 7 {
                '7'
            } else if d == 8 {
                '8'
            } else if d == 9 {
                '9'
            } else {
                ' '
            }
        },
    }
}

/// One rendered grid row: nine cell characters with bars before columns
/// 0, 3 and 6 and after column 8, newline included.
pub open spec fn row_line(s: Seq<Option<u8>>, y: int) -> Seq<char> {
    seq![
        '|',
        cell_char(s[cell_index(y, 0)]),
        cell_char(s[cell_index(y, 1)]),
        cell_char(s[cell_index(y, 2)]),
        '|',
        cell_char(s[cell_index(y, 3)]),
        cell_char(s[cell_index(y, 4)]),
        cell_char(s[cell_index(y, 5)]),
        '|',
        cell_char(s[cell_index(y, 6)]),
        cell_char(s[cell_index(y, 7)]),
        cell_char(s[cell_index(y, 8)]),
        '|',
        '\n',
    ]
}

/// The rendering of the first `y` grid rows, separator lines included.
pub open spec fn rendered_prefix(s: Seq<Option<u8>>, y: int) -> Seq<char>
    decreases y
        when 0 <= y <= 9
{
    if y <= 0 {
        Seq::empty()
    } else {
        rendered_prefix(s, y - 1)
            + (if (y - 1) % 3 == 0 { sep_line() } else { Seq::<char>::empty() })
            + row_line(s, y - 1)
    }
}

/// The full rendering of a board: all nine rows and the closing separator.
pub open spec fn rendered(s: Seq<Option<u8>>) -> Seq<char> {
    rendered_prefix(s, 9) + sep_line()
}

/// The one-character rendering of a cell.
fn cell_str(c: Option<u8>) -> (r: &'static str)
    ensures
        r@.len() == 1,
        r@[0] == cell_char(c),
{
    match c {
        Option::None => {
            proof {
                reveal_strlit(" ");
            }
            " "
        },
        Option::Some(d) => {
            if d == 1 {
                proof {
                    reveal_strlit("1");
                }
                "1"
            } else if d == 2 {
                proof {
                    reveal_strlit("2");
                }
                "2"
            } else if d == 3 {
                proof {
                    reveal_strlit("3");
                }
                "3"
            } else if d == 4 {
                proof {
                    reveal_strlit("4");
                }
                "4"
            } else if d == 5 {
                proof {
                    reveal_strlit("5");
                }
                "5"
            } else if d == 6 {
                proof {
                    reveal_strlit("6");
                }
                "6"
            } else if d == 7 {
                proof {
                    reveal_strlit("7");
                }
                "7"
            } else if d == 8 {
                proof {
                    reveal_strlit("8");
                }
                "8"
            } else if d == 9 {
                proof {
                    reveal_strlit("9");
                }
                "9"
            } else {
                proof {
                    reveal_strlit(" ");
                }
                " "
            }
        },
    }
}

impl Board {
    /// One rendered grid row, bars and newline included.
    fn render_row(&self, y: usize) -> (line: String)
        requires
            self.wf(),
            y < 9,
        ensures
            line@ == row_line(self@, y as int),
    {
        let mut line = String::new();
        line.append("|");
        line.append(cell_str(self.get(y, 0)));
        line.append(cell_str(self.get(y, 1)));
        line.append(cell_str(self.get(y, 2)));
        line.append("|");
        line.append(cell_str(self.get(y, 3)));
        line.append(cell_str(self.get(y, 4)));
        line.append(cell_str(self.get(y, 5)));
        line.append("|");
        line.append(cell_str(self.get(y, 6)));
        line.append(cell_str(self.get(y, 7)));
        line.append(cell_str(self.get(y, 8)));
        line.append("|");
        line.append("\n");
        proof {
            reveal_strlit("|");
            reveal_strlit("\n");
            assert(line@ =~= row_line(self@, y as int));
        }
        line
    }

    /// The textual rendering of the board.
    pub fn render(&self) -> (out: String)
        requires
            self.wf(),
        ensures
            out@ == rendered(self@),
    {
        let mut out = String::new();
        let mut y: usize = 0;
        while y < 9
            invariant
                self.wf(),
                y <= 9,
                out@ == rendered_prefix(self@, y as int),
            decreases 9 - y,
        {
            if y % 3 == 0 {
                out.append("+---+---+---+\n");
            }
            let line = self.render_row(y);
            out.append(line.as_str());
            proof {
                reveal_strlit("+---+---+---+\n");
                assert("+---+---+---+\n"@ =~= sep_line());
                assert(out@ =~= rendered_prefix(self@, y as int + 1));
            }
            y += 1;
        }
        out.append("+---+---+---+\n");
        proof {
            reveal_strlit("+---+---+---+\n");
            assert("+---+---+---+\n"@ =~= sep_line());
            assert(out@ =~= rendered(self@));
        }
        out
    }
}

} // verus!
