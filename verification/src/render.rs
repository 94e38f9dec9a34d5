//! Drawing a board for a terminal: each cell three characters wide, on a
//! black or white background (ANSI colours), with its digit if it has one.
use vstd::prelude::*;
use vstd::string::StringExecFns;
use crate::board::{HumanStr8ts, SimpleStr8ts, N};
use crate::text::string_push;

verus! {

/// The decimal digits of `n`.
pub open spec fn decimal(n: nat) -> Seq<char>
    decreases n,
{
    if n < 10 {
        seq![(48 + n) as char]
    } else {
        decimal(n / 10) + seq![(48 + n % 10) as char]
    }
}

/// One cell: background, then three blanks or the digit between blanks in
/// the contrasting colour, then the colour reset.
pub open spec fn cell_display(n: u8, black: bool) -> Seq<char> {
    let bg = if black { "\x1b[40m"@ } else { "\x1b[47m"@ };
    let fg = if black { "\x1b[37m"@ } else { "\x1b[30m"@ };
    if n == 0 {
        bg + "   "@ + "\x1b[0m"@
    } else {
        bg + fg + seq![' '] + decimal(n as nat) + seq![' '] + "\x1b[0m"@
    }
}

/// The drawing of the first `k` cells in row-major order, with a line break
/// after each row.
pub open spec fn display_upto(numbers: [[u8; N]; N], black: [[bool; N]; N], k: int) -> Seq<char>
    decreases k,
{
    if k <= 0 {
        Seq::empty()
    } else {
        display_upto(numbers, black, k - 1) + cell_display(numbers[(k - 1) / 9][(k - 1) % 9], black[(k - 1) / 9][(k - 1) % 9])
            + if k % 9 == 0 { seq!['\n'] } else { Seq::empty() }
    }
}

fn push_decimal(out: &mut String, n: u8)
    ensures final(out)@ == old(out)@ + decimal(n as nat),
{
    if n >= 100 {
        string_push(out, (48 + n / 100) as char);
        string_push(out, (48 + (n / 10) % 10) as char);
        string_push(out, (48 + n % 10) as char);
        proof {
            assert(decimal(n as nat) =~= seq![(48 + n / 100) as char, (48 + (n / 10) % 10) as char, (48 + n % 10) as char]) by {
                assert(decimal((n / 10) as nat) == decimal((n / 100) as nat) + seq![(48 + (n / 10) % 10) as char]);
                assert((n / 10) / 10 == n / 100);
            }
        }
    } else if n >= 10 {
        string_push(out, (48 + n / 10) as char);
        string_push(out, (48 + n % 10) as char);
        proof {
            assert(decimal((n / 10) as nat) =~= seq![(48 + n / 10) as char]);
            assert(decimal(n as nat) =~= seq![(48 + n / 10) as char, (48 + n % 10) as char]);
        }
    } else {
        string_push(out, (48 + n) as char);
        proof {
            assert(decimal(n as nat) =~= seq![(48 + n) as char]);
        }
    }
}

/// Appends the drawing of one cell.
fn push_cell(out: &mut String, num: u8, black: bool)
    ensures final(out)@ == old(out)@ + cell_display(num, black),
{
    let ghost start = out@;
    if black {
        out.append("\x1b[40m");
    } else {
        out.append("\x1b[47m");
    }
    let ghost with_bg = out@;
    if num == 0 {
        out.append("   ");
    } else {
        if black {
            out.append("\x1b[37m");
        } else {
            out.append("\x1b[30m");
        }
        string_push(out, ' ');
        push_decimal(out, num);
        string_push(out, ' ');
    }
    out.append("\x1b[0m");
    proof {
        assert(out@ =~= start + cell_display(num, black));
    }
}

/// Draws the board for a terminal.
pub fn board_display(numbers: &[[u8; N]; N], is_black: &[[bool; N]; N]) -> (out: String)
    ensures out@ == display_upto(*numbers, *is_black, 81),
{
    let mut out = String::new();
    for r in 0..N
        invariant out@ == display_upto(*numbers, *is_black, r * 9),
    {
        for c in 0..N
            invariant r < 9, out@ == display_upto(*numbers, *is_black, r * 9 + c),
        {
            push_cell(&mut out, numbers[r][c], is_black[r][c]);
            if c == 8 {
                string_push(&mut out, '\n');
            }
            proof {
                let k = r * 9 + c + 1;
                assert((k - 1) / 9 == r && (k - 1) % 9 == c) by (nonlinear_arith)
                    requires k == r * 9 + c + 1, 0 <= c < 9;
                assert(k % 9 == 0 <==> c == 8) by (nonlinear_arith)
                    requires k == r * 9 + c + 1, 0 <= c < 9;
                assert(out@ =~= display_upto(*numbers, *is_black, k));
            }
        }
    }
    out
}

impl SimpleStr8ts {
    /// The board drawn for a terminal.
    pub fn render(&self) -> (out: String)
        ensures out@ == display_upto(self.numbers, self.is_black, 81),
    {
        board_display(&self.numbers, &self.is_black)
    }
}

impl HumanStr8ts {
    /// The board drawn for a terminal (digits only, no candidates).
    pub fn render(&self) -> (out: String)
        ensures out@ == display_upto(self.numbers, self.is_black, 81),
    {
        board_display(&self.numbers, &self.is_black)
    }
}

} // verus!
