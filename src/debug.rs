//! Human-readable renderings of a board.
use vstd::prelude::*;
use vstd::string::StringExecFns;

use crate::bits::has_digit;
use crate::geometry::{is_cell, WIDTH};
use crate::sudoku::{digit_char, digit_str, Sudoku};

verus! {

/// What a cell shows in the framed grid: a blank for 0, else its digit.
pub open spec fn shown(d: usize) -> char {
    if d == 0 {
        ' '
    } else {
        digit_char(d)
    }
}

/// The line drawn above every third row of the framed grid.
pub open spec fn frame_line() -> Seq<char> {
    seq!['+', '-', '-', '-', '+', '-', '-', '-', '+', '-', '-', '-', '+', '\n']
}

/// A `|` before every third column, starting with the first.
pub open spec fn bar_before(j: int) -> Seq<char> {
    if j % 3 == 0 {
        seq!['|']
    } else {
        seq![]
    }
}

/// The first `j` cells of row `i`, with their bars.
pub open spec fn row_prefix(digits: Seq<usize>, i: int, j: int) -> Seq<char>
    decreases j,
{
    if j <= 0 {
        seq![]
    } else {
        row_prefix(digits, i, j - 1) + bar_before(j - 1) + seq![shown(digits[9 * i + j - 1])]
    }
}

/// The first `n` rows of the framed grid, with the frame lines above them.
pub open spec fn grid_prefix(digits: Seq<usize>, n: int) -> Seq<char>
    decreases n,
{
    if n <= 0 {
        seq![]
    } else {
        grid_prefix(digits, n - 1) + (if (n - 1) % 3 == 0 {
            frame_line()
        } else {
            seq![]
        }) + row_prefix(digits, n - 1, 9) + seq!['|', '\n']
    }
}

/// The board as a framed 9×9 grid: blank cells as spaces.
pub open spec fn pretty_text(digits: Seq<usize>) -> Seq<char> {
    grid_prefix(digits, 9) + frame_line()
}

/// Renders the placed digits as a framed 9×9 grid, blank cells as spaces.
pub fn pretty_print(sudoku: &Sudoku) -> (r: Option<String>)
    requires
        forall|i: int| is_cell(i) ==> #[trigger] sudoku.digits[i] <= 9,
    ensures
        r matches Some(t) && t@ == pretty_text(sudoku.digits@),
{
    let ghost d = sudoku.digits@;
    let mut ret = String::new();
    let mut i: usize = 0;
    while i < WIDTH
        invariant
            i <= WIDTH,
            d == sudoku.digits@,
            ret@ == grid_prefix(d, i as int),
            forall|k: int| is_cell(k) ==> #[trigger] sudoku.digits[k] <= 9,
        decreases WIDTH - i,
    {
        proof {
            reveal_strlit("+---+---+---+\n");
            reveal_strlit("|\n");
        }
        if i % 3 == 0 {
            ret.append("+---+---+---+\n");
        }
        let ghost head = ret@;
        assert(head =~= grid_prefix(d, i as int) + (if i % 3 == 0 {
            frame_line()
        } else {
            seq![]
        }));
        let mut j: usize = 0;
        while j < WIDTH
            invariant
                i < WIDTH,
                j <= WIDTH,
                d == sudoku.digits@,
                forall|k: int| is_cell(k) ==> #[trigger] sudoku.digits[k] <= 9,
                ret@ == head + row_prefix(d, i as int, j as int),
            decreases WIDTH - j,
        {
            proof {
                reveal_strlit("|");
                reveal_strlit(" ");
            }
            if j % 3 == 0 {
                ret.append("|");
            }
            let cell = sudoku.digits[WIDTH * i + j];
            if cell == 0 {
                ret.append(" ");
            } else {
                ret.append(digit_str(cell));
            }
            assert(ret@ =~= head + row_prefix(d, i as int, j + 1));
            j = j + 1;
        }
        ret.append("|\n");
        assert(ret@ =~= grid_prefix(d, i + 1));
        i = i + 1;
    }
    proof {
        reveal_strlit("+---+---+---+\n");
    }
    ret.append("+---+---+---+\n");
    assert(ret@ =~= pretty_text(d));
    Some(ret)
}

/// The character at row `y` and column `x` (0 to 26) of the candidates grid.
/// Each cell is a 3×3 block: an unresolved cell shows candidate `d` at
/// position `d - 1` of its block, row by row, and a blank where a digit is
/// not a candidate; a resolved cell shows its digit in the middle and `x`
/// around it.
pub open spec fn alt_char(s: Sudoku, y: int, x: int) -> char {
    let i = 9 * (y / 3) + x / 3;
    let p = 3 * (y % 3) + x % 3;
    if s.digits[i] == 0 {
        if has_digit(s.bitboard[i], (p + 1) as usize) {
            digit_char((p + 1) as usize)
        } else {
            ' '
        }
    } else if p == 4 {
        digit_char(s.digits[i])
    } else {
        'x'
    }
}

/// The line drawn above every third row of the candidates grid.
pub open spec fn alt_frame_line() -> Seq<char> {
    Seq::new(
        38,
        |k: int|
            if k == 37 {
                '\n'
            } else if k % 4 == 0 {
                '+'
            } else {
                '-'
            },
    )
}

/// The first `x` characters of row `y` of the candidates grid, with bars.
pub open spec fn alt_row_prefix(s: Sudoku, y: int, x: int) -> Seq<char>
    decreases x,
{
    if x <= 0 {
        seq![]
    } else {
        alt_row_prefix(s, y, x - 1) + bar_before(x - 1) + seq![alt_char(s, y, x - 1)]
    }
}

/// The first `n` rows of the candidates grid, with the frame lines above them.
pub open spec fn alt_grid_prefix(s: Sudoku, n: int) -> Seq<char>
    decreases n,
{
    if n <= 0 {
        seq![]
    } else {
        alt_grid_prefix(s, n - 1) + (if (n - 1) % 3 == 0 {
            alt_frame_line()
        } else {
            seq![]
        }) + alt_row_prefix(s, n - 1, 27) + seq!['|', '\n']
    }
}

/// The board as a framed 27×27 grid of candidates.
pub open spec fn alt_text(s: Sudoku) -> Seq<char> {
    alt_grid_prefix(s, 27) + alt_frame_line()
}

/// Renders every cell as a 3×3 block: the candidates of an unresolved cell,
/// or the digit of a resolved one surrounded by `x`.
pub fn pretty_print_alternatives(sudoku: &Sudoku) -> (r: Option<String>)
    requires
        forall|i: int| is_cell(i) ==> #[trigger] sudoku.digits[i] <= 9,
    ensures
        r matches Some(t) && t@ == alt_text(*sudoku),
{
    let mut ret = String::new();
    let mut y: usize = 0;
    while y < 3 * WIDTH
        invariant
            y <= 3 * WIDTH,
            ret@ == alt_grid_prefix(*sudoku, y as int),
            forall|k: int| is_cell(k) ==> #[trigger] sudoku.digits[k] <= 9,
        decreases 3 * WIDTH - y,
    {
        proof {
            reveal_strlit("+---+---+---+---+---+---+---+---+---+\n");
            reveal_strlit("|\n");
        }
        if y % 3 == 0 {
            ret.append("+---+---+---+---+---+---+---+---+---+\n");
            assert("+---+---+---+---+---+---+---+---+---+\n"@ =~= alt_frame_line());
        }
        let ghost head = ret@;
        assert(head =~= alt_grid_prefix(*sudoku, y as int) + (if y % 3 == 0 {
            alt_frame_line()
        } else {
            seq![]
        }));
        let mut x: usize = 0;
        while x < 3 * WIDTH
            invariant
                y < 3 * WIDTH,
                x <= 3 * WIDTH,
                forall|k: int| is_cell(k) ==> #[trigger] sudoku.digits[k] <= 9,
                ret@ == head + alt_row_prefix(*sudoku, y as int, x as int),
            decreases 3 * WIDTH - x,
        {
            proof {
                reveal_strlit("|");
                reveal_strlit(" ");
                reveal_strlit("x");
            }
            if x % 3 == 0 {
                ret.append("|");
            }
            let i = WIDTH * (y / 3) + x / 3;
            let p = 3 * (y % 3) + x % 3;
            let digit = sudoku.digits[i];
            if digit == 0 {
                proof {
                    crate::bits::lemma_has_digit_bits(sudoku.bitboard[i as int], (p + 1) as usize);
                }
                if sudoku.bitboard[i] & (1usize << (p + 1)) != 0 {
                    ret.append(digit_str(p + 1));
                } else {
                    ret.append(" ");
                }
            } else if p == 4 {
                ret.append(digit_str(digit));
            } else {
                ret.append("x");
            }
            assert(ret@ =~= head + alt_row_prefix(*sudoku, y as int, x + 1));
            x = x + 1;
        }
        ret.append("|\n");
        assert(ret@ =~= alt_grid_prefix(*sudoku, y + 1));
        y = y + 1;
    }
    proof {
        reveal_strlit("+---+---+---+---+---+---+---+---+---+\n");
    }
    ret.append("+---+---+---+---+---+---+---+---+---+\n");
    assert("+---+---+---+---+---+---+---+---+---+\n"@ =~= alt_frame_line());
    assert(ret@ =~= alt_text(*sudoku));
    Some(ret)
}

} // verus!
