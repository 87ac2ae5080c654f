//! Rendering a grid as text: one line per row, each cell as its value from
//! 1 or `X`, with blank columns and lines between blocks.

use vstd::prelude::*;

use crate::element::CellView;
use crate::puzzle::PuzzleState;

verus! {

/// Relies on `String::push`: appends one character.
#[verifier::external_body]
pub(crate) fn push_char(s: &mut String, c: char)
    ensures
        final(s)@ == old(s)@.push(c),
{
    s.push(c)
}

pub open spec fn digit_chars() -> Seq<char> {
    seq!['1', '2', '3', '4', '5', '6', '7', '8', '9']
}

/// How a cell is written: its value from 1, or `X`.
pub open spec fn cell_char(c: CellView) -> char {
    match c.resolved {
        Some(v) => if v < 9 {
            digit_chars()[v as int]
        } else {
            'X'
        },
        None => 'X',
    }
}

/// The text of row `r` from column `j` on.
pub open spec fn row_from(g: Seq<CellView>, r: int, j: int) -> Seq<char>
    decreases 9 - j,
{
    if j >= 9 || j < 0 {
        seq![]
    } else {
        seq![cell_char(g[r * 9 + j]), ' '] + (if j % 3 == 2 {
            seq![' ', ' ']
        } else {
            seq![]
        }) + row_from(g, r, j + 1)
    }
}

/// The lines of the grid from row `r` on.
pub open spec fn render_from(g: Seq<CellView>, r: int) -> Seq<Seq<char>>
    decreases 9 - r,
{
    if r >= 9 || r < 0 {
        seq![]
    } else {
        seq![row_from(g, r, 0)] + (if r == 2 || r == 5 {
            seq![seq![]]
        } else {
            seq![]
        }) + render_from(g, r + 1)
    }
}

pub open spec fn render_text(g: Seq<CellView>) -> Seq<Seq<char>> {
    render_from(g, 0)
}

/// The first line of the verbose rendering.
pub open spec fn state_text(s: PuzzleState) -> Seq<char> {
    match s {
        PuzzleState::Solved => "Puzzle state: Solved"@,
        PuzzleState::Unsolved => "Puzzle state: Unsolved"@,
        PuzzleState::Unsolvable => "Puzzle state: Unsolvable"@,
    }
}

/// The candidates of a cell from value `v` on, as bits: `1` where the
/// value is still possible.
pub open spec fn bits_from(p: Set<usize>, v: int) -> Seq<char>
    decreases 9 - v,
{
    if v >= 9 || v < 0 {
        seq![]
    } else {
        seq![
            if p.contains(v as usize) {
                '1'
            } else {
                '0'
            },
        ] + bits_from(p, v + 1)
    }
}

/// The verbose text of a cell: its value or `X`, then its candidates.
pub open spec fn cell_debug(c: CellView) -> Seq<char> {
    seq![cell_char(c), ':'] + bits_from(c.possible, 0) + seq![' ']
}

/// The verbose text of row `r` from column `j` on.
pub open spec fn debug_row_from(g: Seq<CellView>, r: int, j: int) -> Seq<char>
    decreases 9 - j,
{
    if j >= 9 || j < 0 {
        seq![]
    } else {
        cell_debug(g[r * 9 + j]) + (if j % 3 == 2 {
            seq![' ', ' ']
        } else {
            seq![]
        }) + debug_row_from(g, r, j + 1)
    }
}

/// The verbose lines of the grid from row `r` on.
pub open spec fn debug_from(g: Seq<CellView>, r: int) -> Seq<Seq<char>>
    decreases 9 - r,
{
    if r >= 9 || r < 0 {
        seq![]
    } else {
        seq![debug_row_from(g, r, 0)] + (if r == 2 || r == 5 {
            seq![seq![]]
        } else {
            seq![]
        }) + debug_from(g, r + 1)
    }
}

/// The verbose rendering: the state, then each cell with its candidates.
pub open spec fn render_debug_text(g: Seq<CellView>, s: PuzzleState) -> Seq<Seq<char>> {
    seq![state_text(s)] + debug_from(g, 0)
}

/// Append every character of `t`.
pub(crate) fn push_str(s: &mut String, t: &str)
    ensures
        final(s)@ == old(s)@ + t@,
{
    let n = t.unicode_len();
    let mut i: usize = 0;
    while i < n
        invariant
            n == t@.len(),
            i <= n,
            s@ == old(s)@ + t@.take(i as int),
        decreases n - i,
    {
        let c = t.get_char(i);
        push_char(s, c);
        assert(t@.take(i + 1) =~= t@.take(i as int).push(c));
        assert(s@ =~= old(s)@ + t@.take(i + 1));
        i += 1;
    }
    assert(t@.take(n as int) =~= t@);
}

pub(crate) fn cell_text(c: Option<usize>) -> (r: char)
    ensures
        r == cell_char(CellView { resolved: c, possible: Set::empty() }),
{
    let digits: [char; 9] = ['1', '2', '3', '4', '5', '6', '7', '8', '9'];
    assert(digits@ =~= digit_chars());
    match c {
        Some(v) => if v < 9 {
            digits[v]
        } else {
            'X'
        },
        None => 'X',
    }
}

} // verus!
