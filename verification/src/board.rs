//! The grid of cells, the candidate-flag overlay and the score count.

use vstd::prelude::*;

verus! {

/// The color of a disc; also identifies a player.
#[derive(Clone, Copy, PartialEq, Eq, Structural, Debug)]
pub enum Color {
    Black,
    White,
}

/// One cell of the grid: a placed disc, or an empty cell carrying its
/// candidate flag. `Candidate` marks an empty cell adjacent to at least one
/// disc; `Blocked` marks every other empty cell. A disc never carries a flag.
#[derive(Clone, Copy, PartialEq, Eq, Structural, Debug)]
pub enum Cell {
    Disc(Color),
    Candidate,
    Blocked,
}

/// The other player's color.
pub open spec fn opposite(c: Color) -> Color {
    match c {
        Color::Black => Color::White,
        Color::White => Color::Black,
    }
}

impl Color {
    /// Executable counterpart of `opposite`.
    pub fn other(self) -> (r: Color)
        ensures
            r == opposite(self),
    {
        match self {
            Color::Black => Color::White,
            Color::White => Color::Black,
        }
    }
}

/// Rows and columns run from 1 to 8.
pub open spec fn in_range(r: int, c: int) -> bool {
    1 <= r <= 8 && 1 <= c <= 8
}

/// The flat index of position (r, c) in row-major order.
pub open spec fn idx(r: int, c: int) -> int {
    (r - 1) * 8 + (c - 1)
}

/// The row of a flat index.
pub open spec fn row_of(i: int) -> int {
    i / 8 + 1
}

/// The column of a flat index.
pub open spec fn col_of(i: int) -> int {
    i % 8 + 1
}

/// A grid is a sequence of exactly 64 cells.
pub open spec fn grid_wf(g: Seq<Cell>) -> bool {
    g.len() == 64
}

/// The cell at position (r, c).
pub open spec fn cell_at(g: Seq<Cell>, r: int, c: int) -> Cell {
    g[idx(r, c)]
}

pub open spec fn is_disc(cell: Cell) -> bool {
    cell is Disc
}

pub open spec fn is_empty_cell(cell: Cell) -> bool {
    !(cell is Disc)
}

/// Position (r, c) is on the board and holds a disc.
pub open spec fn occupied(g: Seq<Cell>, r: int, c: int) -> bool {
    in_range(r, c) && is_disc(cell_at(g, r, c))
}

/// Position (r, c) has at least one of its up-to-8 neighbors occupied by a
/// disc; border positions have a reduced neighbor set.
pub open spec fn has_occupied_neighbor(g: Seq<Cell>, r: int, c: int) -> bool {
    ||| occupied(g, r - 1, c - 1)
    ||| occupied(g, r - 1, c)
    ||| occupied(g, r - 1, c + 1)
    ||| occupied(g, r, c - 1)
    ||| occupied(g, r, c + 1)
    ||| occupied(g, r + 1, c - 1)
    ||| occupied(g, r + 1, c)
    ||| occupied(g, r + 1, c + 1)
}

/// What the candidate recomputation leaves at flat index i: discs untouched,
/// empty cells flagged `Candidate` exactly when a neighbor is occupied.
pub open spec fn mark_cell(g: Seq<Cell>, i: int) -> Cell {
    if is_disc(g[i]) {
        g[i]
    } else if has_occupied_neighbor(g, row_of(i), col_of(i)) {
        Cell::Candidate
    } else {
        Cell::Blocked
    }
}

/// The grid after a full candidate recomputation.
pub open spec fn marked(g: Seq<Cell>) -> Seq<Cell> {
    Seq::new(64, |i: int| mark_cell(g, i))
}

/// The number of discs of color `col` among the first n cells.
pub open spec fn count_discs_upto(g: Seq<Cell>, col: Color, n: int) -> int
    decreases n,
{
    if n <= 0 {
        0
    } else {
        count_discs_upto(g, col, n - 1) + if g[n - 1] == Cell::Disc(col) {
            1int
        } else {
            0int
        }
    }
}

/// The number of discs of color `col` on the grid.
pub open spec fn count_discs(g: Seq<Cell>, col: Color) -> int {
    count_discs_upto(g, col, 64)
}

/// The winner by disc count; `None` is a tie.
pub open spec fn winner_of(g: Seq<Cell>) -> Option<Color> {
    if count_discs(g, Color::Black) > count_discs(g, Color::White) {
        Some(Color::Black)
    } else if count_discs(g, Color::White) > count_discs(g, Color::Black) {
        Some(Color::White)
    } else {
        None
    }
}

/// The standard start: two discs of each color on the center square.
pub open spec fn initial_cells() -> Seq<Cell> {
    Seq::new(64, |i: int|
        if i == idx(4, 4) || i == idx(5, 5) {
            Cell::Disc(Color::White)
        } else if i == idx(4, 5) || i == idx(5, 4) {
            Cell::Disc(Color::Black)
        } else {
            Cell::Blocked
        })
}

/// For a position on the board, the flat index is in bounds and maps back to
/// the same row and column.
pub proof fn lemma_idx_inverse(r: int, c: int)
    requires
        in_range(r, c),
    ensures
        0 <= idx(r, c) < 64,
        row_of(idx(r, c)) == r,
        col_of(idx(r, c)) == c,
{
    vstd::arithmetic::div_mod::lemma_fundamental_div_mod_converse(idx(r, c), 8, r - 1, c - 1);
}

/// Recomputing the candidate overlay touches no disc, so the disc counts of
/// the first n cells are unchanged.
proof fn lemma_marked_counts_upto(g: Seq<Cell>, col: Color, n: int)
    requires
        grid_wf(g),
        0 <= n <= 64,
    ensures
        count_discs_upto(marked(g), col, n) == count_discs_upto(g, col, n),
    decreases n,
{
    if n > 0 {
        lemma_marked_counts_upto(g, col, n - 1);
        assert(marked(g)[n - 1] == mark_cell(g, n - 1));
    }
}

/// Recomputing the candidate overlay leaves both disc counts unchanged.
pub proof fn lemma_marked_preserves_counts(g: Seq<Cell>, col: Color)
    requires
        grid_wf(g),
    ensures
        count_discs(marked(g), col) == count_discs(g, col),
{
    lemma_marked_counts_upto(g, col, 64);
}

/// The exec index computation for a position on the board.
pub fn rc_index(r: usize, c: usize) -> (i: usize)
    requires
        in_range(r as int, c as int),
    ensures
        i as int == idx(r as int, c as int),
        i < 64,
{
    (r - 1) * 8 + (c - 1)
}

/// The 8x8 grid of cells.
pub struct Board {
    cells: Vec<Cell>,
}

impl View for Board {
    type V = Seq<Cell>;

    closed spec fn view(&self) -> Seq<Cell> {
        self.cells@
    }
}

impl Board {
    /// The grid holds exactly 64 cells.
    pub open spec fn wf(&self) -> bool {
        grid_wf(self@)
    }

    /// A board over caller-supplied cells.
    pub fn from_cells(cells: Vec<Cell>) -> (b: Board)
        requires
            cells@.len() == 64,
        ensures
            b.wf(),
            b@ == cells@,
    {
        Board { cells }
    }

    /// Read the cell at position (r, c).
    pub fn get_cell(&self, r: usize, c: usize) -> (cell: Cell)
        requires
            self.wf(),
            in_range(r as int, c as int),
        ensures
            cell == cell_at(self@, r as int, c as int),
    {
        let i = rc_index(r, c);
        self.cells[i]
    }

    /// Write the cell at position (r, c).
    pub(crate) fn set_cell(&mut self, r: usize, c: usize, cell: Cell)
        requires
            old(self).wf(),
            in_range(r as int, c as int),
        ensures
            final(self).wf(),
            final(self)@ == old(self)@.update(idx(r as int, c as int), cell),
    {
        let i = rc_index(r, c);
        self.cells.set(i, cell);
    }

    /// A fresh board: the standard start position with its candidate flags.
    pub fn new() -> (b: Board)
        ensures
            b.wf(),
            b@ == marked(initial_cells()),
    {
        let mut cells: Vec<Cell> = Vec::new();
        let mut i: usize = 0;
        while i < 64
            invariant
                cells@.len() == i,
                i <= 64,
                forall|t: int| 0 <= t < i ==> cells@[t] == Cell::Blocked,
            decreases 64 - i,
        {
            cells.push(Cell::Blocked);
            i = i + 1;
        }
        let mut b = Board { cells };
        b.set_cell(4, 4, Cell::Disc(Color::White));
        b.set_cell(5, 5, Cell::Disc(Color::White));
        b.set_cell(4, 5, Cell::Disc(Color::Black));
        b.set_cell(5, 4, Cell::Disc(Color::Black));
        proof {
            assert(b@ =~= initial_cells());
        }
        b.validate_cells();
        b
    }

    /// Whether the cell at (r, c) holds a disc.
    fn is_disc_at(&self, r: usize, c: usize) -> (b: bool)
        requires
            self.wf(),
            in_range(r as int, c as int),
        ensures
            b == is_disc(cell_at(self@, r as int, c as int)),
    {
        match self.get_cell(r, c) {
            Cell::Disc(_) => true,
            _ => false,
        }
    }

    /// Whether position (r, c) has an occupied neighbor.
    fn has_neighbor_disc(&self, r: usize, c: usize) -> (b: bool)
        requires
            self.wf(),
            in_range(r as int, c as int),
        ensures
            b == has_occupied_neighbor(self@, r as int, c as int),
    {
        let mut found = false;
        if r >= 2 && c >= 2 {
            found = found || self.is_disc_at(r - 1, c - 1);
        }
        if r >= 2 {
            found = found || self.is_disc_at(r - 1, c);
        }
        if r >= 2 && c <= 7 {
            found = found || self.is_disc_at(r - 1, c + 1);
        }
        if c >= 2 {
            found = found || self.is_disc_at(r, c - 1);
        }
        if c <= 7 {
            found = found || self.is_disc_at(r, c + 1);
        }
        if r <= 7 && c >= 2 {
            found = found || self.is_disc_at(r + 1, c - 1);
        }
        if r <= 7 {
            found = found || self.is_disc_at(r + 1, c);
        }
        if r <= 7 && c <= 7 {
            found = found || self.is_disc_at(r + 1, c + 1);
        }
        found
    }

    /// Recompute the candidate overlay from scratch: every empty cell is
    /// flagged `Candidate` exactly when one of its neighbors holds a disc,
    /// and `Blocked` otherwise. Discs are untouched.
    pub fn validate_cells(&mut self)
        requires
            old(self).wf(),
        ensures
            final(self).wf(),
            final(self)@ == marked(old(self)@),
    {
        let ghost g0: Seq<Cell> = self@;
        let mut r: usize = 1;
        while r <= 8
            invariant
                1 <= r <= 9,
                self.wf(),
                g0.len() == 64,
                forall|t: int| 0 <= t < 64 ==> is_disc(#[trigger] self@[t]) == is_disc(g0[t]),
                forall|t: int|
                    0 <= t < (r - 1) * 8 ==> #[trigger] self@[t] == mark_cell(g0, t),
                forall|t: int| (r - 1) * 8 <= t < 64 ==> #[trigger] self@[t] == g0[t],
            decreases 9 - r,
        {
            let mut c: usize = 1;
            while c <= 8
                invariant
                    1 <= r <= 8,
                    1 <= c <= 9,
                    self.wf(),
                    g0.len() == 64,
                    forall|t: int| 0 <= t < 64 ==> is_disc(#[trigger] self@[t]) == is_disc(g0[t]),
                    forall|t: int|
                        0 <= t < (r - 1) * 8 + (c - 1) ==> #[trigger] self@[t] == mark_cell(g0, t),
                    forall|t: int| (r - 1) * 8 + (c - 1) <= t < 64 ==> #[trigger] self@[t] == g0[t],
                decreases 9 - c,
            {
                proof {
                    lemma_idx_inverse(r as int, c as int);
                }
                let i = rc_index(r, c);
                let cur = self.cells[i];
                match cur {
                    Cell::Disc(_) => {
                        assert(self@[i as int] == mark_cell(g0, i as int));
                    },
                    _ => {
                        let cand = self.has_neighbor_disc(r, c);
                        if cand {
                            self.set_cell(r, c, Cell::Candidate);
                        } else {
                            self.set_cell(r, c, Cell::Blocked);
                        }
                    },
                }
                c = c + 1;
            }
            r = r + 1;
        }
        proof {
            assert(self@ =~= marked(g0));
        }
    }

    /// Count the discs of each color; the winner has more discs, equal
    /// counts are a tie (`None`).
    pub fn count_scores(&self) -> (res: (Option<Color>, u8, u8))
        requires
            self.wf(),
        ensures
            res.0 == winner_of(self@),
            res.1 as int == count_discs(self@, Color::Black),
            res.2 as int == count_discs(self@, Color::White),
            res.1 <= 64,
            res.2 <= 64,
    {
        let mut black: u8 = 0;
        let mut white: u8 = 0;
        let mut i: usize = 0;
        while i < 64
            invariant
                self.wf(),
                i <= 64,
                black as int == count_discs_upto(self@, Color::Black, i as int),
                white as int == count_discs_upto(self@, Color::White, i as int),
                black <= i,
                white <= i,
            decreases 64 - i,
        {
            match self.cells[i] {
                Cell::Disc(Color::Black) => {
                    black = black + 1;
                },
                Cell::Disc(Color::White) => {
                    white = white + 1;
                },
                _ => {},
            }
            i = i + 1;
        }
        let winner = if black > white {
            Some(Color::Black)
        } else if white > black {
            Some(Color::White)
        } else {
            None
        };
        (winner, black, white)
    }
}

/// Candidate flags, immediately after recomputation, mark exactly the empty
/// cells with at least one occupied neighbor; no disc cell carries a flag.
pub proof fn lemma_candidates_exact(g: Seq<Cell>)
    requires
        grid_wf(g),
    ensures
        forall|r: int, c: int|
            in_range(r, c) ==> (cell_at(marked(g), r, c) == Cell::Candidate <==> (is_empty_cell(
                cell_at(g, r, c),
            ) && has_occupied_neighbor(g, r, c))),
        forall|r: int, c: int|
            in_range(r, c) && is_disc(cell_at(g, r, c)) ==> cell_at(marked(g), r, c) == cell_at(
                g,
                r,
                c,
            ),
{
    assert forall|r: int, c: int| in_range(r, c) implies (cell_at(marked(g), r, c)
        == Cell::Candidate <==> (is_empty_cell(cell_at(g, r, c)) && has_occupied_neighbor(
        g,
        r,
        c,
    ))) && (is_disc(cell_at(g, r, c)) ==> cell_at(marked(g), r, c) == cell_at(g, r, c)) by {
        lemma_idx_inverse(r, c);
    }
}

/// Recomputing the candidate overlay twice in a row yields the same overlay.
pub proof fn lemma_marked_idempotent(g: Seq<Cell>)
    requires
        grid_wf(g),
    ensures
        marked(marked(g)) == marked(g),
{
    assert forall|i: int| 0 <= i < 64 implies marked(marked(g))[i] == marked(g)[i] by {
        assert(forall|t: int| 0 <= t < 64 ==> is_disc(#[trigger] marked(g)[t]) == is_disc(g[t]));
    }
    assert(marked(marked(g)) =~= marked(g));
}

} // verus!
