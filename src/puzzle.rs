//! The grid and the solving algorithm.

use vstd::prelude::*;

use crate::candidates::{
    set_contains, bits, set_difference, set_first, set_union_with, set_with_capacity,
};
use crate::error::SudokuError;
use crate::parse::{
    lines_view, parse_clues, parse_text, Clue, ParseError,
};
use crate::render::{
    bits_from, cell_debug, debug_from, debug_row_from, push_str, render_debug_text, state_text,
    cell_char, cell_text, push_char, render_from, render_text, row_from,
};
use crate::element::{
    lemma_single, lemma_wf_finite, CellView, Element, GROUP_SIZE,
};
use crate::model::{
    apart, clues_agree, lemma_load_apart, lemma_place_apart,
    basic_closure, cells_wf, clues_valid, col_of, complete, consistent, count_open, first_empty,
    fresh_grid, halts, in_group, lemma_block_cell, lemma_block_cover, lemma_coords,
    lemma_count_bound, lemma_count_place, lemma_fresh_sound, lemma_load_sound, lemma_member,
    lemma_member_cover, lemma_place_shrinks, lemma_place_sound, lemma_shrinks_refl,
    lemma_shrinks_trans, lemma_union_others, lemma_union_step, lemma_visit_cell, load, lone, member,
    member_index, others, peers, place, round, row_of, run, scan, scan_upto, settle_basic, shrinks,
    sound, sqr_index_of, sqr_of, sweep, sweep_upto, union_at, visit, Group, NUM_ELEMENTS,
};

verus! {

/// Where the solving of a puzzle stands.
#[derive(PartialEq, Eq, Structural, Clone, Copy, Debug)]
pub enum PuzzleState {
    Solved,
    Unsolved,
    Unsolvable,
}

/// Represents a sudoku puzzle: `NUM_ELEMENTS` cells, row-major, and the
/// state of its solving.
#[derive(Debug)]
pub struct Puzzle {
    elements: Vec<Element>,
    state: PuzzleState,
}

/// The cells of block `sqr`, as `(row, col)`, in row-major order.
pub fn map_sqr_to_row_col(sqr: usize) -> (r: [(usize, usize); GROUP_SIZE])
    requires
        sqr < GROUP_SIZE,
    ensures
        forall|k: int|
            0 <= k < GROUP_SIZE ==> (#[trigger] r@[k]).0 == (sqr / 3) * 3 + k / 3 && r@[k].1 == (
            sqr % 3) * 3 + k % 3,
{
    let r0 = (sqr / 3) * 3;
    let c0 = (sqr % 3) * 3;
    [
        (r0, c0),
        (r0, c0 + 1),
        (r0, c0 + 2),
        (r0 + 1, c0),
        (r0 + 1, c0 + 1),
        (r0 + 1, c0 + 2),
        (r0 + 2, c0),
        (r0 + 2, c0 + 1),
        (r0 + 2, c0 + 2),
    ]
}

/// The block that holds cell `(row, col)`.
pub fn map_row_col_to_sqr(row: usize, col: usize) -> (r: usize)
    requires
        row < GROUP_SIZE,
        col < GROUP_SIZE,
    ensures
        r == (row / 3) * 3 + col / 3,
        r == sqr_of(row * 9 + col),
{
    let mut sqr = (row / 3) * 3;
    sqr += col / 3;
    sqr
}

/// The position of cell `(row, col)` within its block.
pub fn map_row_col_to_sqr_index(row: usize, col: usize) -> (r: usize)
    requires
        row < GROUP_SIZE,
        col < GROUP_SIZE,
    ensures
        r == (row % 3) * 3 + col % 3,
        r == sqr_index_of(row * 9 + col),
{
    let mut sqr_index = (row % 3) * 3;
    sqr_index += col % 3;
    sqr_index
}

/// The cell that a scan of kind `k` visits at step `p`.
fn visit_index(k: Group, p: usize) -> (r: usize)
    requires
        p < NUM_ELEMENTS,
    ensures
        r == visit(k, p as int),
        r < NUM_ELEMENTS,
{
    proof { lemma_visit_cell(k, p as int); }
    match k {
        Group::Row => p,
        Group::Column => (p % 9) * 9 + p / 9,
        Group::Block => {
            let sqr = p / 9;
            let k = p % 9;
            ((sqr / 3) * 3 + k / 3) * 9 + (sqr % 3) * 3 + k % 3
        },
    }
}

/// The grid with `v` removed from the cells that `pick` selects.
pub open spec fn strip(g: Seq<CellView>, v: usize, pick: spec_fn(int) -> bool) -> Seq<CellView> {
    Seq::new(g.len(), |j: int| if pick(j) { g[j].without(v) } else { g[j] })
}

impl View for Puzzle {
    type V = Seq<CellView>;

    closed spec fn view(&self) -> Seq<CellView> {
        self.elements@.map_values(|e: Element| e@)
    }
}

/// The number of rounds a result of `solve` reports.
pub open spec fn rounds_of(r: Result<usize, (SudokuError, usize)>) -> nat {
    match r {
        Ok(n) => n as nat,
        Err((_, n)) => n as nat,
    }
}

/// The value an inconsistent cell is reported with: its final value from 1,
/// or 0 when it has none.
pub open spec fn reported_value(c: CellView) -> usize {
    match c.resolved {
        Some(v) => (v + 1) as usize,
        None => 0,
    }
}

impl Default for Puzzle {
    /// A puzzle with no clue: every value is possible in every cell.
    fn default() -> (r: Self)
        ensures
            r@ == fresh_grid(),
            r.status() == PuzzleState::Unsolved,
            r.wf(),
    {
        let mut elements: Vec<Element> = Vec::new();
        let mut i: usize = 0;
        while i < NUM_ELEMENTS
            invariant
                i <= NUM_ELEMENTS,
                elements@.len() == i,
                forall|j: int| 0 <= j < i ==> (#[trigger] elements@[j])@ == CellView::fresh(),
            decreases NUM_ELEMENTS - i,
        {
            elements.push(Element::default());
            i += 1;
        }
        let r = Puzzle { elements, state: PuzzleState::Unsolved };
        proof {
            r.lemma_view_len();
            assert(r@ =~= fresh_grid());
            lemma_fresh_sound();
        }
        r
    }
}

impl Puzzle {
    /// What holds of a puzzle between calls: the grid is sound, and the
    /// state agrees with it.
    pub open spec fn wf(&self) -> bool {
        &&& sound(self@)
        &&& match self.status() {
            PuzzleState::Solved => complete(self@) && consistent(self@),
            PuzzleState::Unsolved => !(complete(self@) && consistent(self@)),
            PuzzleState::Unsolvable => {
                &&& !(complete(self@) && consistent(self@))
                &&& (!consistent(self@) || round(self@) == self@)
            },
        }
    }

    /// A puzzle from a list of clues `(row, col, value)`, value from 1:
    /// starting from a fresh grid, each clue is finalized in turn and its
    /// value removed from the cell's peers.
    pub fn new_from_clues(clues: &Vec<(usize, usize, usize)>) -> (r: Puzzle)
        requires
            clues_valid(clues@),
        ensures
            r@ == load(clues@),
            r.wf(),
            clues_agree(clues@) ==> apart(r@),
            r.status() == (if complete(r@) && consistent(r@) {
                PuzzleState::Solved
            } else {
                PuzzleState::Unsolved
            }),
    {
        let mut puzzle = Puzzle::default();
        let mut t: usize = 0;
        while t < clues.len()
            invariant
                t <= clues@.len(),
                clues_valid(clues@),
                puzzle@ == load(clues@.take(t as int)),
                puzzle@.len() == NUM_ELEMENTS,
                puzzle.state == PuzzleState::Unsolved,
            decreases clues@.len() - t,
        {
            let (row, col, val) = clues[t];
            assert(clues@[t as int].0 < GROUP_SIZE);
            proof {
                let u = clues@.take(t as int + 1);
                assert(u.drop_last() =~= clues@.take(t as int));
                assert(u.last() == clues@[t as int]);
            }
            puzzle.finalize_element(row, col, val - 1);
            t += 1;
        }
        proof {
            assert(clues@.take(clues@.len() as int) =~= clues@);
            lemma_load_sound(clues@);
            if clues_agree(clues@) {
                lemma_load_apart(clues@);
            }
        }
        puzzle.refresh_state();
        puzzle
    }

    /// Mark a puzzle `Solved` when it already is, else `Unsolved`.
    fn refresh_state(&mut self)
        requires
            sound(old(self)@),
        ensures
            final(self)@ == old(self)@,
            final(self).wf(),
            final(self).status() == (if complete(old(self)@) && consistent(old(self)@) {
                PuzzleState::Solved
            } else {
                PuzzleState::Unsolved
            }),
    {
        if self.is_complete() && self.find_empty().is_none() {
            self.state = PuzzleState::Solved;
        } else {
            self.state = PuzzleState::Unsolved;
        }
    }

    /// A puzzle from the lines of a text: see `parse_clues`. The clues are
    /// loaded as by `new_from_clues`.
    pub fn parse_puzzle(puzzle_lines: Vec<String>) -> (r: Result<Puzzle, ParseError>)
        ensures
            match r {
                Ok(p) => match parse_text(lines_view(puzzle_lines@)) {
                    Ok(cs) => {
                        &&& p@ == load(cs)
                        &&& p.wf()
                        &&& p.status() == (if complete(p@) && consistent(p@) {
                            PuzzleState::Solved
                        } else {
                            PuzzleState::Unsolved
                        })
                    },
                    Err(_) => false,
                },
                Err(e) => parse_text(lines_view(puzzle_lines@)) == Err::<Seq<Clue>, ParseError>(e),
            },
    {
        match parse_clues(&puzzle_lines) {
            Ok(clues) => Ok(Puzzle::new_from_clues(&clues)),
            Err(e) => Err(e),
        }
    }

    /// The grid as text, one line per row: each cell as its value from 1 or
    /// `X`, and a blank line and two more spaces between blocks.
    pub fn render(&self) -> (r: Vec<String>)
        requires
            self@.len() == NUM_ELEMENTS,
        ensures
            lines_view(r@) == render_text(self@),
    {
        proof { self.lemma_view_len(); }
        let ghost g = self@;
        let mut out: Vec<String> = Vec::new();
        let mut row: usize = 0;
        while row < GROUP_SIZE
            invariant
                row <= GROUP_SIZE,
                g == self@,
                g.len() == NUM_ELEMENTS,
                self.elements@.len() == NUM_ELEMENTS,
                forall|j: int| 0 <= j < NUM_ELEMENTS ==> #[trigger] g[j] == self.elements@[j]@,
                lines_view(out@) + render_from(g, row as int) == render_text(g),
            decreases GROUP_SIZE - row,
        {
            let mut line = String::new();
            let mut col: usize = 0;
            while col < GROUP_SIZE
                invariant
                    row < GROUP_SIZE,
                    col <= GROUP_SIZE,
                    g.len() == NUM_ELEMENTS,
                    self.elements@.len() == NUM_ELEMENTS,
                    forall|j: int| 0 <= j < NUM_ELEMENTS ==> #[trigger] g[j] == self.elements@[j]@,
                    line@ + row_from(g, row as int, col as int) == row_from(g, row as int, 0),
                decreases GROUP_SIZE - col,
            {
                proof { lemma_coords(row as int, col as int); }
                let v = self.elements[row * GROUP_SIZE + col].value();
                let ch = cell_text(v);
                let ghost before = line@;
                push_char(&mut line, ch);
                push_char(&mut line, ' ');
                if col % 3 == 2 {
                    push_char(&mut line, ' ');
                    push_char(&mut line, ' ');
                }
                proof {
                    let t = seq![cell_char(g[row * 9 + col]), ' '] + (if col % 3 == 2 {
                        seq![' ', ' ']
                    } else {
                        seq![]
                    });
                    assert(line@ =~= before + t);
                    assert(before + row_from(g, row as int, col as int) =~= before + t + row_from(
                        g,
                        row as int,
                        col + 1,
                    ));
                }
                col += 1;
            }
            assert(line@ =~= line@ + row_from(g, row as int, GROUP_SIZE as int));
            let ghost before = lines_view(out@);
            out.push(line);
            if row == 2 || row == 5 {
                out.push(String::new());
            }
            proof {
                let t = seq![row_from(g, row as int, 0)] + (if row == 2 || row == 5 {
                    seq![seq![]]
                } else {
                    seq![]
                });
                assert(lines_view(out@) =~= before + t);
                assert(before + render_from(g, row as int) =~= before + t + render_from(
                    g,
                    row + 1,
                ));
            }
            row += 1;
        }
        assert(lines_view(out@) =~= lines_view(out@) + render_from(g, GROUP_SIZE as int));
        out
    }

    /// The grid as verbose text: a line with the state, then one line per
    /// row, each cell as its value from 1 or `X`, a colon, and nine bits
    /// whose `v`-th is `1` when value `v + 1` is still possible.
    pub fn render_debug(&self) -> (r: Vec<String>)
        requires
            self@.len() == NUM_ELEMENTS,
        ensures
            lines_view(r@) == render_debug_text(self@, self.status()),
    {
        proof { self.lemma_view_len(); }
        let ghost g = self@;
        let mut head = String::new();
        match self.state {
            PuzzleState::Solved => push_str(&mut head, "Puzzle state: Solved"),
            PuzzleState::Unsolved => push_str(&mut head, "Puzzle state: Unsolved"),
            PuzzleState::Unsolvable => push_str(&mut head, "Puzzle state: Unsolvable"),
        }
        assert(head@ =~= state_text(self.state));
        let mut out: Vec<String> = Vec::new();
        out.push(head);
        assert(lines_view(out@) =~= seq![state_text(self.state)]);
        let mut row: usize = 0;
        while row < GROUP_SIZE
            invariant
                row <= GROUP_SIZE,
                g == self@,
                g.len() == NUM_ELEMENTS,
                self.elements@.len() == NUM_ELEMENTS,
                forall|j: int| 0 <= j < NUM_ELEMENTS ==> #[trigger] g[j] == self.elements@[j]@,
                lines_view(out@) + debug_from(g, row as int) == render_debug_text(g, self.state),
            decreases GROUP_SIZE - row,
        {
            let mut line = String::new();
            let mut col: usize = 0;
            while col < GROUP_SIZE
                invariant
                    row < GROUP_SIZE,
                    col <= GROUP_SIZE,
                    g.len() == NUM_ELEMENTS,
                    self.elements@.len() == NUM_ELEMENTS,
                    forall|j: int| 0 <= j < NUM_ELEMENTS ==> #[trigger] g[j] == self.elements@[j]@,
                    line@ + debug_row_from(g, row as int, col as int) == debug_row_from(
                        g,
                        row as int,
                        0,
                    ),
                decreases GROUP_SIZE - col,
            {
                proof { lemma_coords(row as int, col as int); }
                let e = &self.elements[row * GROUP_SIZE + col];
                let ghost c = g[row * 9 + col];
                let ghost before = line@;
                push_char(&mut line, cell_text(e.value()));
                push_char(&mut line, ':');
                let p = e.possible();
                let mut v: usize = 0;
                while v < GROUP_SIZE
                    invariant
                        v <= GROUP_SIZE,
                        bits(p) == c.possible,
                        line@ + bits_from(c.possible, v as int) == before + seq![cell_char(c), ':']
                            + bits_from(c.possible, 0),
                    decreases GROUP_SIZE - v,
                {
                    let ghost b = line@;
                    if set_contains(&p, v) {
                        push_char(&mut line, '1');
                    } else {
                        push_char(&mut line, '0');
                    }
                    assert(b + bits_from(c.possible, v as int) =~= line@ + bits_from(
                        c.possible,
                        v + 1,
                    ));
                    v += 1;
                }
                push_char(&mut line, ' ');
                if col % 3 == 2 {
                    push_char(&mut line, ' ');
                    push_char(&mut line, ' ');
                }
                proof {
                    let t = cell_debug(c) + (if col % 3 == 2 {
                        seq![' ', ' ']
                    } else {
                        seq![]
                    });
                    assert(line@ =~= before + t);
                    assert(before + debug_row_from(g, row as int, col as int) =~= before + t
                        + debug_row_from(g, row as int, col + 1));
                }
                col += 1;
            }
            assert(line@ =~= line@ + debug_row_from(g, row as int, GROUP_SIZE as int));
            let ghost before = lines_view(out@);
            out.push(line);
            if row == 2 || row == 5 {
                out.push(String::new());
            }
            proof {
                let t = seq![debug_row_from(g, row as int, 0)] + (if row == 2 || row == 5 {
                    seq![seq![]]
                } else {
                    seq![]
                });
                assert(lines_view(out@) =~= before + t);
                assert(before + debug_from(g, row as int) =~= before + t + debug_from(g, row + 1));
            }
            row += 1;
        }
        assert(lines_view(out@) =~= lines_view(out@) + debug_from(g, GROUP_SIZE as int));
        out
    }

    /// The state of the solving.
    pub fn state(&self) -> (r: PuzzleState)
        ensures
            r == self.status(),
    {
        self.state
    }

    /// The cell at `(row, col)`.
    pub fn element(&self, row: usize, col: usize) -> (r: &Element)
        requires
            self@.len() == NUM_ELEMENTS,
            row < GROUP_SIZE,
            col < GROUP_SIZE,
        ensures
            r@ == self@[row * 9 + col],
    {
        proof {
            self.lemma_view_len();
            lemma_coords(row as int, col as int);
        }
        &self.elements[row * GROUP_SIZE + col]
    }

    /// Attempt to solve the puzzle: run rounds while the state is
    /// `Unsolved`. Before each round the grid is checked for a cell with no
    /// candidate left. Returns the number of rounds that finalized a cell;
    /// on failure the grid keeps the progress made.
    pub fn solve(&mut self) -> (r: Result<usize, (SudokuError, usize)>)
        requires
            old(self).wf(),
        ensures
            final(self).wf(),
            shrinks(old(self)@, final(self)@),
            apart(old(self)@) ==> apart(final(self)@),
            run(old(self)@, NUM_ELEMENTS as nat) == (final(self)@, rounds_of(r)),
            rounds_of(r) <= NUM_ELEMENTS,
            match r {
                Ok(_) => {
                    &&& final(self).status() == PuzzleState::Solved
                    &&& complete(final(self)@)
                    &&& consistent(final(self)@)
                },
                Err((e, _)) => {
                    &&& final(self).status() == PuzzleState::Unsolvable
                    &&& match e {
                        SudokuError::PuzzleStateInconsistent(row, col, val) => {
                            &&& row < GROUP_SIZE
                            &&& col < GROUP_SIZE
                            &&& first_empty(final(self)@, row * 9 + col)
                            &&& val == reported_value(final(self)@[row * 9 + col])
                        },
                        SudokuError::PuzzleUnsolvable => {
                            &&& consistent(final(self)@)
                            &&& !complete(final(self)@)
                            &&& round(final(self)@) == final(self)@
                        },
                        SudokuError::PuzzleUnsolved => false,
                    }
                },
            },
    {
        let ghost g0 = self@;
        proof {
            lemma_shrinks_refl(g0);
            lemma_count_bound(g0);
        }
        let mut rounds: usize = 0;
        while self.state == PuzzleState::Unsolved
            invariant
                self.wf(),
                shrinks(g0, self@),
                apart(g0) ==> apart(self@),
                count_open(g0) <= NUM_ELEMENTS,
                rounds + count_open(self@) <= count_open(g0),
                run(g0, NUM_ELEMENTS as nat) == (
                    run(self@, (NUM_ELEMENTS - rounds) as nat).0,
                    (run(self@, (NUM_ELEMENTS - rounds) as nat).1 + rounds) as nat,
                ),
            decreases count_open(self@) + if self.state == PuzzleState::Unsolved {
                1nat
            } else {
                0nat
            },
        {
            let ghost g = self@;
            match self.find_empty() {
                Some(_) => {
                    self.state = PuzzleState::Unsolvable;
                },
                None => {
                    let updates = self.reduce();
                    proof { lemma_shrinks_trans(g0, g, self@); }
                    if updates > 0 {
                        proof {
                            assert(round(g) != g);
                            assert(!halts(g));
                        }
                        rounds += 1;
                    }
                },
            }
        }
        match self.state {
            PuzzleState::Solved => Ok(rounds),
            _ => match self.find_empty() {
                Some(i) => {
                    let val = match self.elements[i].value() {
                        Some(v) => v + 1,
                        None => 0,
                    };
                    proof {
                        self.lemma_view_len();
                        assert(self@[i as int].wf());
                        assert(i == (i / 9) * 9 + i % 9);
                    }
                    Err((SudokuError::PuzzleStateInconsistent(i / GROUP_SIZE, i % GROUP_SIZE, val), rounds))
                },
                None => Err((SudokuError::PuzzleUnsolvable, rounds)),
            },
        }
    }

    /// The state of the solving.
    pub closed spec fn status(&self) -> PuzzleState {
        self.state
    }

    proof fn lemma_view_len(&self)
        ensures
            self@.len() == self.elements@.len(),
            forall|i: int| 0 <= i < self.elements@.len() ==> #[trigger] self@[i] == self.elements@[i]@,
    {
    }

    fn remove_at(&mut self, j: usize, val: usize)
        requires
            old(self)@.len() == NUM_ELEMENTS,
            j < NUM_ELEMENTS,
        ensures
            final(self)@ == old(self)@.update(j as int, old(self)@[j as int].without(val)),
            final(self).status() == old(self).status(),
    {
        proof { old(self).lemma_view_len(); }
        self.elements[j].remove(val);
        proof { self.lemma_view_len(); }
        assert(self@ =~= old(self)@.update(j as int, old(self)@[j as int].without(val)));
    }

    // remove 'val' from every other cell of 'row'
    fn row_remove_possible(&mut self, row: usize, col: usize, val: usize)
        requires
            old(self)@.len() == NUM_ELEMENTS,
            row < GROUP_SIZE,
            col < GROUP_SIZE,
        ensures
            final(self)@ == strip(old(self)@, val, |j: int| row_of(j) == row && col_of(j) != col),
            final(self).status() == old(self).status(),
    {
        proof { old(self).lemma_view_len(); }
        let ghost g = self@;
        let mut c: usize = 0;
        while c < GROUP_SIZE
            invariant
                c <= GROUP_SIZE,
                row < GROUP_SIZE,
                col < GROUP_SIZE,
                g.len() == NUM_ELEMENTS,
                self.elements@.len() == NUM_ELEMENTS,
                self.state == old(self).state,
                self@ == strip(g, val, |j: int| row_of(j) == row && col_of(j) != col && col_of(j) < c),
            decreases GROUP_SIZE - c,
        {
            proof {
                self.lemma_view_len();
                lemma_coords(row as int, c as int);
            }
            let ghost prev = self@;
            if c != col {
                self.remove_at(row * GROUP_SIZE + c, val);
            }
            proof {
                self.lemma_view_len();
                let h = strip(g, val, |j: int| row_of(j) == row && col_of(j) != col && col_of(j) < c + 1);
                assert forall|j: int| 0 <= j < NUM_ELEMENTS implies #[trigger] self@[j] == h[j] by {
                    if j != row * 9 + c {
                        assert(self@[j] == prev[j]);
                        assert(j == row_of(j) * 9 + col_of(j));
                    } else {
                        assert(prev[j] == g[j]);
                    }
                }
                assert(self@ =~= h);
            }
            c += 1;
        }
        assert(self@ =~= strip(g, val, |j: int| row_of(j) == row && col_of(j) != col));
    }

    // remove 'val' from every other cell of 'col'
    fn col_remove_possible(&mut self, row: usize, col: usize, val: usize)
        requires
            old(self)@.len() == NUM_ELEMENTS,
            row < GROUP_SIZE,
            col < GROUP_SIZE,
        ensures
            final(self)@ == strip(old(self)@, val, |j: int| col_of(j) == col && row_of(j) != row),
            final(self).status() == old(self).status(),
    {
        let ghost g = self@;
        let mut r: usize = 0;
        while r < GROUP_SIZE
            invariant
                r <= GROUP_SIZE,
                row < GROUP_SIZE,
                col < GROUP_SIZE,
                g.len() == NUM_ELEMENTS,
                self.state == old(self).state,
                self@ == strip(g, val, |j: int| col_of(j) == col && row_of(j) != row && row_of(j) < r),
            decreases GROUP_SIZE - r,
        {
            proof { lemma_coords(r as int, col as int); }
            let ghost prev = self@;
            if r != row {
                self.remove_at(r * GROUP_SIZE + col, val);
            }
            proof {
                let h = strip(g, val, |j: int| col_of(j) == col && row_of(j) != row && row_of(j) < r + 1);
                assert forall|j: int| 0 <= j < NUM_ELEMENTS implies #[trigger] self@[j] == h[j] by {
                    if j != r * 9 + col {
                        assert(self@[j] == prev[j]);
                        assert(j == row_of(j) * 9 + col_of(j));
                    } else {
                        assert(prev[j] == g[j]);
                    }
                }
                assert(self@ =~= h);
            }
            r += 1;
        }
        assert(self@ =~= strip(g, val, |j: int| col_of(j) == col && row_of(j) != row));
    }

    // remove 'val' from the cells of the block of ('row', 'col') that share
    // neither its row nor its column: the row and column passes reach the others
    fn sqr_remove_possible(&mut self, row: usize, col: usize, val: usize)
        requires
            old(self)@.len() == NUM_ELEMENTS,
            row < GROUP_SIZE,
            col < GROUP_SIZE,
        ensures
            final(self)@ == strip(
                old(self)@,
                val,
                |j: int| sqr_of(j) == sqr_of(row * 9 + col) && row_of(j) != row && col_of(j) != col,
            ),
            final(self).status() == old(self).status(),
    {
        let ghost g = self@;
        let sqr = map_row_col_to_sqr(row, col);
        let cells = map_sqr_to_row_col(sqr);
        let mut k: usize = 0;
        while k < GROUP_SIZE
            invariant
                k <= GROUP_SIZE,
                row < GROUP_SIZE,
                col < GROUP_SIZE,
                sqr < GROUP_SIZE,
                sqr == sqr_of(row * 9 + col),
                forall|t: int|
                    0 <= t < GROUP_SIZE ==> (#[trigger] cells@[t]).0 == (sqr / 3) * 3 + t / 3
                        && cells@[t].1 == (sqr % 3) * 3 + t % 3,
                g.len() == NUM_ELEMENTS,
                self.state == old(self).state,
                self@ == strip(
                    g,
                    val,
                    |j: int| sqr_of(j) == sqr && row_of(j) != row && col_of(j) != col && sqr_index_of(j) < k,
                ),
            decreases GROUP_SIZE - k,
        {
            let (r, c) = cells[k];
            proof {
                lemma_block_cell(sqr as int, k as int);
                lemma_coords(r as int, c as int);
            }
            let ghost prev = self@;
            if (r != row) && (c != col) {
                self.remove_at(r * GROUP_SIZE + c, val);
            }
            proof {
                let h = strip(
                    g,
                    val,
                    |j: int| sqr_of(j) == sqr && row_of(j) != row && col_of(j) != col && sqr_index_of(j) < k + 1,
                );
                assert forall|j: int| 0 <= j < NUM_ELEMENTS implies #[trigger] self@[j] == h[j] by {
                    lemma_block_cover(j);
                    if j != r * 9 + c {
                        assert(self@[j] == prev[j]);
                    } else {
                        assert(prev[j] == g[j]);
                    }
                }
                assert(self@ =~= h);
            }
            k += 1;
        }
        assert(self@ =~= strip(
            g,
            val,
            |j: int| sqr_of(j) == sqr && row_of(j) != row && col_of(j) != col,
        ));
    }

    /// The cells of the `k` group of cell `i`, but `i` itself.
    fn group_minus(k: Group, i: usize) -> (r: Vec<usize>)
        requires
            i < NUM_ELEMENTS,
        ensures
            forall|t: int| 0 <= t < r@.len() ==> (#[trigger] r@[t]) < NUM_ELEMENTS,
            forall|j: usize|
                j < NUM_ELEMENTS ==> (#[trigger] r@.contains(j) <==> (j != i && in_group(
                    k,
                    i as int,
                    j as int,
                ))),
            r@.len() == GROUP_SIZE - 1,
            forall|t: int|
                0 <= t < r@.len() ==> #[trigger] r@[t] == member(
                    k,
                    i as int,
                    if t < member_index(k, i as int) {
                        t
                    } else {
                        t + 1
                    },
                ),
    {
        let ghost mi = member_index(k, i as int);
        proof { lemma_member_cover(k, i as int, i as int); }
        let row = i / GROUP_SIZE;
        let col = i % GROUP_SIZE;
        let sqr = map_row_col_to_sqr(row, col);
        let cells = map_sqr_to_row_col(sqr);
        let mut group: Vec<usize> = Vec::new();
        let mut t: usize = 0;
        while t < GROUP_SIZE
            invariant
                t <= GROUP_SIZE,
                i < NUM_ELEMENTS,
                row == row_of(i as int),
                col == col_of(i as int),
                sqr == sqr_of(i as int),
                forall|s: int|
                    0 <= s < GROUP_SIZE ==> (#[trigger] cells@[s]).0 == (sqr / 3) * 3 + s / 3
                        && cells@[s].1 == (sqr % 3) * 3 + s % 3,
                forall|s: int| 0 <= s < group@.len() ==> (#[trigger] group@[s]) < NUM_ELEMENTS,
                forall|j: usize|
                    j < NUM_ELEMENTS ==> (#[trigger] group@.contains(j) <==> (j != i && in_group(
                        k,
                        i as int,
                        j as int,
                    ) && member_index(k, j as int) < t)),
                mi == member_index(k, i as int),
                0 <= mi < 9,
                member(k, i as int, mi) == i,
                group@.len() == if t <= mi {
                    t as int
                } else {
                    t - 1
                },
                forall|s: int|
                    0 <= s < group@.len() ==> #[trigger] group@[s] == member(
                        k,
                        i as int,
                        if s < mi {
                            s
                        } else {
                            s + 1
                        },
                    ),
            decreases GROUP_SIZE - t,
        {
            proof {
                lemma_member(k, i as int, t as int);
                lemma_block_cell(sqr as int, t as int);
            }
            let j = match k {
                Group::Row => row * GROUP_SIZE + t,
                Group::Column => t * GROUP_SIZE + col,
                Group::Block => cells[t].0 * GROUP_SIZE + cells[t].1,
            };
            assert(j == member(k, i as int, t as int));
            let ghost prev = group@;
            if j != i {
                assert(t != mi);
                group.push(j);
            } else {
                assert(t == mi) by {
                    assert(member_index(k, member(k, i as int, t as int)) == t);
                }
            }
            proof {
                assert forall|x: usize| x < NUM_ELEMENTS implies (#[trigger] group@.contains(x) <==> (
                x != i && in_group(k, i as int, x as int) && member_index(k, x as int) < t + 1)) by {
                    if x != i && in_group(k, i as int, x as int) && member_index(k, x as int) == t {
                        lemma_member_cover(k, i as int, x as int);
                        assert(group@[group@.len() - 1] == x);
                    }
                    if group@.contains(x) && !prev.contains(x) {
                        let s = choose|s: int| 0 <= s < group@.len() && group@[s] == x;
                        if s < prev.len() {
                            assert(prev[s] == x);
                        }
                    }
                    if prev.contains(x) {
                        let s = choose|s: int| 0 <= s < prev.len() && prev[s] == x;
                        assert(group@[s] == x);
                    }
                }
            }
            t += 1;
        }
        proof {
            assert forall|j: usize| j < NUM_ELEMENTS && j != i && in_group(k, i as int, j as int)
                implies member_index(k, j as int) < 9 by {
                lemma_member_cover(k, i as int, j as int);
            }
        }
        group
    }

    /// When exactly one candidate of cell `i` is held by none of the cells
    /// listed in `other`, that candidate.
    fn diff_other_group(&self, i: usize, other: &Vec<usize>) -> (r: Option<usize>)
        requires
            cells_wf(self@),
            i < NUM_ELEMENTS,
            forall|t: int| 0 <= t < other@.len() ==> (#[trigger] other@[t]) < NUM_ELEMENTS,
        ensures
            r == (if self@[i as int].possible.difference(union_at(self@, other@)).len() == 1 {
                Some(self@[i as int].possible.difference(union_at(self@, other@)).choose())
            } else {
                None
            }),
    {
        proof { self.lemma_view_len(); }
        let ghost g = self@;
        // create union of the other elements
        let mut other_union = set_with_capacity(GROUP_SIZE);
        let mut t: usize = 0;
        while t < other.len()
            invariant
                t <= other@.len(),
                g == self@,
                g.len() == self.elements@.len(),
                g.len() == NUM_ELEMENTS,
                forall|s: int| 0 <= s < other@.len() ==> (#[trigger] other@[s]) < NUM_ELEMENTS,
                bits(other_union) == union_at(g, other@.take(t as int)),
            decreases other@.len() - t,
        {
            proof {
                self.lemma_view_len();
                lemma_union_step(g, other@, t as int);
            }
            let p = self.elements[other[t]].possible();
            set_union_with(&mut other_union, &p);
            t += 1;
        }
        assert(other@.take(other@.len() as int) =~= other@);
        let own = self.elements[i].possible();
        let diff = set_difference(&own, &other_union);
        let ghost d = g[i as int].possible.difference(union_at(g, other@));
        proof {
            self.lemma_view_len();
            diff@.unique_seq_to_set();
            lemma_wf_finite(g[i as int]);
            vstd::set_lib::lemma_len_subset(d, g[i as int].possible);
        }
        if diff.len() == 1 {
            proof {
                assert(diff@.to_set().contains(diff@[0]));
                lemma_single(d, diff@[0]);
            }
            Some(diff[0])
        } else {
            None
        }
    }

    /// One scan of kind `k`: each open cell, in the scan's order, that is a
    /// hidden single of its `k` group is finalized. Returns how many were.
    fn scan_group(&mut self, k: Group) -> (updates: usize)
        requires
            sound(old(self)@),
        ensures
            final(self)@ == scan(old(self)@, k),
            sound(final(self)@),
            shrinks(old(self)@, final(self)@),
            apart(old(self)@) ==> apart(final(self)@),
            updates == count_open(old(self)@) - count_open(final(self)@),
            updates == 0 ==> final(self)@ == old(self)@,
            final(self).status() == old(self).status(),
    {
        let ghost g0 = self@;
        proof { lemma_shrinks_refl(g0); }
        let mut updates: usize = 0;
        let mut p: usize = 0;
        while p < NUM_ELEMENTS
            invariant
                p <= NUM_ELEMENTS,
                sound(self@),
                self@ == scan_upto(g0, k, p as nat),
                shrinks(g0, self@),
                apart(g0) ==> apart(self@),
                count_open(self@) <= count_open(g0),
                updates == count_open(g0) - count_open(self@),
                updates <= p,
                updates == 0 ==> self@ == g0,
                self.state == old(self).state,
            decreases NUM_ELEMENTS - p,
        {
            proof { self.lemma_view_len(); }
            let ghost g = self@;
            let i = visit_index(k, p);
            // skip if already finalized
            if !self.elements[i].is_finalized() {
                let other_elements = Self::group_minus(k, i);
                proof { lemma_union_others(g, k, i as int, other_elements@); }
                match self.diff_other_group(i, &other_elements) {
                    Some(val) => {
                        proof {
                            assert(lone(g, k, i as int).contains(val));
                            assert(g[i as int].wf());
                            lemma_coords((i / 9) as int, (i % 9) as int);
                            lemma_place_sound(g, i as int, val);
                            lemma_place_shrinks(g, i as int, val);
                            if apart(g) {
                                lemma_place_apart(g, i as int, val);
                            }
                            lemma_shrinks_trans(g0, g, place(g, i as int, val));
                            lemma_count_place(g, i as int, val);
                        }
                        // found one: finalize this value
                        self.finalize_element(i / GROUP_SIZE, i % GROUP_SIZE, val);
                        updates += 1;
                    },
                    None => {},
                }
            }
            p += 1;
        }
        updates
    }

    fn row_scan(&mut self) -> (updates: usize)
        requires
            sound(old(self)@),
        ensures
            final(self)@ == scan(old(self)@, Group::Row),
            sound(final(self)@),
            shrinks(old(self)@, final(self)@),
            apart(old(self)@) ==> apart(final(self)@),
            updates == count_open(old(self)@) - count_open(final(self)@),
            updates == 0 ==> final(self)@ == old(self)@,
            final(self).status() == old(self).status(),
    {
        self.scan_group(Group::Row)
    }

    fn col_scan(&mut self) -> (updates: usize)
        requires
            sound(old(self)@),
        ensures
            final(self)@ == scan(old(self)@, Group::Column),
            sound(final(self)@),
            shrinks(old(self)@, final(self)@),
            apart(old(self)@) ==> apart(final(self)@),
            updates == count_open(old(self)@) - count_open(final(self)@),
            updates == 0 ==> final(self)@ == old(self)@,
            final(self).status() == old(self).status(),
    {
        self.scan_group(Group::Column)
    }

    fn sqr_scan(&mut self) -> (updates: usize)
        requires
            sound(old(self)@),
        ensures
            final(self)@ == scan(old(self)@, Group::Block),
            sound(final(self)@),
            shrinks(old(self)@, final(self)@),
            apart(old(self)@) ==> apart(final(self)@),
            updates == count_open(old(self)@) - count_open(final(self)@),
            updates == 0 ==> final(self)@ == old(self)@,
            final(self).status() == old(self).status(),
    {
        self.scan_group(Group::Block)
    }

    /// Naked singles: sweep the grid row-major, finalizing each open cell
    /// left with one candidate, until a sweep finalizes nothing.
    fn reduce_basic_elements(&mut self) -> (updates: usize)
        requires
            sound(old(self)@),
        ensures
            final(self)@ == basic_closure(old(self)@),
            sound(final(self)@),
            shrinks(old(self)@, final(self)@),
            apart(old(self)@) ==> apart(final(self)@),
            updates == count_open(old(self)@) - count_open(final(self)@),
            updates == 0 ==> final(self)@ == old(self)@,
            final(self).status() == old(self).status(),
    {
        let ghost g0 = self@;
        let ghost mut fuel: nat = NUM_ELEMENTS as nat + 1;
        proof {
            lemma_shrinks_refl(g0);
            lemma_count_bound(g0);
        }
        let mut updates: usize = 0;
        loop
            invariant
                sound(self@),
                shrinks(g0, self@),
                apart(g0) ==> apart(self@),
                count_open(self@) <= count_open(g0),
                count_open(g0) <= NUM_ELEMENTS,
                updates == count_open(g0) - count_open(self@),
                updates == 0 ==> self@ == g0,
                fuel >= count_open(self@) + 1,
                basic_closure(g0) == settle_basic(self@, fuel),
                self.state == old(self).state,
            ensures
                self@ == basic_closure(g0),
            decreases count_open(self@),
        {
            let last_updates = updates;
            let ghost start = self@;
            let mut p: usize = 0;
            while p < NUM_ELEMENTS
                invariant
                    p <= NUM_ELEMENTS,
                    sound(self@),
                    self@ == sweep_upto(start, p as nat),
                    shrinks(g0, self@),
                    apart(g0) ==> apart(self@),
                    count_open(self@) <= count_open(start),
                    count_open(start) <= count_open(g0),
                    count_open(g0) <= NUM_ELEMENTS,
                    updates == count_open(g0) - count_open(self@),
                    last_updates == count_open(g0) - count_open(start),
                    updates == last_updates ==> self@ == start,
                    self.state == old(self).state,
                decreases NUM_ELEMENTS - p,
            {
                proof { self.lemma_view_len(); }
                let ghost g = self@;
                if let Some(v) = self.elements[p].ready() {
                    proof {
                        let c = g[p as int];
                        lemma_wf_finite(c);
                        assert(c.possible.contains(v));
                        lemma_coords((p / 9) as int, (p % 9) as int);
                        lemma_place_sound(g, p as int, v);
                        lemma_place_shrinks(g, p as int, v);
                        if apart(g) {
                            lemma_place_apart(g, p as int, v);
                        }
                        lemma_shrinks_trans(g0, g, place(g, p as int, v));
                        lemma_count_place(g, p as int, v);
                    }
                    self.finalize_element(p / GROUP_SIZE, p % GROUP_SIZE, v);
                    updates += 1;
                }
                p += 1;
            }
            if last_updates == updates {
                // no changes this sweep
                break;
            }
            proof {
                assert(sweep(start) != start);
                fuel = (fuel - 1) as nat;
            }
        }
        updates
    }

    /// One round: naked singles, then a row, a column and a block scan.
    /// The state becomes `Unsolvable` when the round finalized nothing,
    /// `Solved` when every cell is final and none has run out of candidates.
    fn reduce(&mut self) -> (updates: usize)
        requires
            sound(old(self)@),
        ensures
            final(self)@ == round(old(self)@),
            sound(final(self)@),
            shrinks(old(self)@, final(self)@),
            apart(old(self)@) ==> apart(final(self)@),
            updates == count_open(old(self)@) - count_open(final(self)@),
            updates == 0 ==> final(self)@ == old(self)@,
            final(self).status() == (if updates == 0 {
                PuzzleState::Unsolvable
            } else if complete(final(self)@) && consistent(final(self)@) {
                PuzzleState::Solved
            } else {
                PuzzleState::Unsolved
            }),
    {
        let ghost g0 = self@;
        proof { lemma_count_bound(g0); }
        let mut updates = self.reduce_basic_elements();
        let ghost g1 = self@;
        updates += self.row_scan();
        let ghost g2 = self@;
        updates += self.col_scan();
        let ghost g3 = self@;
        updates += self.sqr_scan();
        proof {
            lemma_shrinks_trans(g0, g1, g2);
            lemma_shrinks_trans(g0, g2, g3);
            lemma_shrinks_trans(g0, g3, self@);
        }
        if updates == 0 {
            // time to stop
            self.state = PuzzleState::Unsolvable;
        } else if self.is_complete() && self.find_empty().is_none() {
            // time to stop
            self.state = PuzzleState::Solved;
        } else {
            // keep going
            self.state = PuzzleState::Unsolved;
        }
        updates
    }

    /// Whether every cell is final.
    fn is_complete(&self) -> (r: bool)
        requires
            self@.len() == NUM_ELEMENTS,
        ensures
            r == complete(self@),
    {
        proof { self.lemma_view_len(); }
        let mut i: usize = 0;
        while i < NUM_ELEMENTS
            invariant
                i <= NUM_ELEMENTS,
                self@.len() == NUM_ELEMENTS,
                self.elements@.len() == NUM_ELEMENTS,
                forall|j: int| 0 <= j < NUM_ELEMENTS ==> #[trigger] self@[j] == self.elements@[j]@,
                forall|j: int| 0 <= j < i ==> (#[trigger] self@[j]).is_final(),
            decreases NUM_ELEMENTS - i,
        {
            if !self.elements[i].is_finalized() {
                assert(!self@[i as int].is_final());
                return false;
            }
            i += 1;
        }
        true
    }

    /// The first cell, row-major, that has run out of candidates.
    fn find_empty(&self) -> (r: Option<usize>)
        requires
            self@.len() == NUM_ELEMENTS,
        ensures
            r.is_none() == consistent(self@),
            r matches Some(i) ==> first_empty(self@, i as int),
    {
        proof { self.lemma_view_len(); }
        let mut i: usize = 0;
        while i < NUM_ELEMENTS
            invariant
                i <= NUM_ELEMENTS,
                self@.len() == NUM_ELEMENTS,
                self.elements@.len() == NUM_ELEMENTS,
                forall|j: int| 0 <= j < NUM_ELEMENTS ==> #[trigger] self@[j] == self.elements@[j]@,
                forall|j: int| 0 <= j < i ==> (#[trigger] self@[j]).possible != Set::<usize>::empty(),
            decreases NUM_ELEMENTS - i,
        {
            let p = self.elements[i].possible();
            if set_first(&p).is_none() {
                assert(self@[i as int].possible == Set::<usize>::empty());
                return Some(i);
            }
            i += 1;
        }
        None
    }

    fn finalize_element(&mut self, row: usize, col: usize, val: usize)
        requires
            old(self)@.len() == NUM_ELEMENTS,
            row < GROUP_SIZE,
            col < GROUP_SIZE,
            val < GROUP_SIZE,
        ensures
            final(self)@ == place(old(self)@, row * 9 + col, val),
            final(self).status() == old(self).status(),
    {
        proof {
            old(self).lemma_view_len();
            lemma_coords(row as int, col as int);
        }
        let ghost g = self@;
        let i = row * GROUP_SIZE + col;
        self.elements[i].finalize(val);
        proof { self.lemma_view_len(); }
        let ghost g1 = self@;
        assert(g1 =~= g.update(i as int, CellView::fixed(val)));
        // remove val as possible from other row, col, square groups
        self.row_remove_possible(row, col, val);
        self.col_remove_possible(row, col, val);
        self.sqr_remove_possible(row, col, val);
        proof {
            let h = place(g, i as int, val);
            assert forall|j: int| 0 <= j < NUM_ELEMENTS implies #[trigger] self@[j] == h[j] by {
                if j != i {
                    assert(j == row_of(j) * 9 + col_of(j));
                    if row_of(j) == row {
                    } else if col_of(j) == col {
                    } else {
                    }
                }
            }
            assert(self@ =~= h);
        }
    }
}

} // verus!
