//! The capture engine: compass directions, capture lines, and the
//! all-or-nothing placement that flips every captured run at once.

use vstd::prelude::*;
use crate::board::{
    Board, Cell, Color, cell_at, count_discs, count_discs_upto, grid_wf, idx, in_range, is_disc,
    lemma_idx_inverse, opposite,
};

verus! {

/// One of the eight compass directions a capture line can run along.
#[derive(Clone, Copy, PartialEq, Eq, Structural, Debug)]
pub enum Direction {
    Up,
    Down,
    Left,
    Right,
    UpLeft,
    UpRight,
    DownLeft,
    DownRight,
}

/// The row and column step of one move along a direction.
pub open spec fn delta(d: Direction) -> (int, int) {
    match d {
        Direction::Up => (-1, 0),
        Direction::Down => (1, 0),
        Direction::Left => (0, -1),
        Direction::Right => (0, 1),
        Direction::UpLeft => (-1, -1),
        Direction::UpRight => (-1, 1),
        Direction::DownLeft => (1, -1),
        Direction::DownRight => (1, 1),
    }
}

/// The position k steps out from (r, c) along d.
pub open spec fn ray(r: int, c: int, d: Direction, k: int) -> (int, int)
    decreases k,
{
    if k <= 0 {
        (r, c)
    } else {
        let p = ray(r, c, d, k - 1);
        (p.0 + delta(d).0, p.1 + delta(d).1)
    }
}

/// Whether the position k steps out along d is still on the board.
pub open spec fn ray_in_range(r: int, c: int, d: Direction, k: int) -> bool {
    in_range(ray(r, c, d, k).0, ray(r, c, d, k).1)
}

/// The cell k steps out along d.
pub open spec fn cell_on_ray(g: Seq<Cell>, r: int, c: int, d: Direction, k: int) -> Cell {
    cell_at(g, ray(r, c, d, k).0, ray(r, c, d, k).1)
}

/// The flat index of the position k steps out along d.
pub open spec fn ray_index(r: int, c: int, d: Direction, k: int) -> int {
    idx(ray(r, c, d, k).0, ray(r, c, d, k).1)
}

/// A valid capture line for `col` along d from (r, c): n consecutive
/// opponent discs, all on the board, terminated by a disc of `col`.
pub open spec fn line_captures(
    g: Seq<Cell>,
    col: Color,
    r: int,
    c: int,
    d: Direction,
    n: int,
) -> bool {
    &&& 1 <= n
    &&& forall|j: int| 1 <= j <= n ==> #[trigger] ray_in_range(r, c, d, j)
    &&& forall|j: int|
        1 <= j <= n ==> #[trigger] cell_on_ray(g, r, c, d, j) == Cell::Disc(opposite(col))
    &&& ray_in_range(r, c, d, n + 1)
    &&& cell_on_ray(g, r, c, d, n + 1) == Cell::Disc(col)
}

/// Whether the direction d contributes a capture for `col` placed at (r, c).
pub open spec fn captures_in_dir(g: Seq<Cell>, col: Color, r: int, c: int, d: Direction) -> bool {
    exists|n: int| line_captures(g, col, r, c, d, n)
}

/// The length of the capture line along d, or 0 when d contributes none.
pub open spec fn cap_len(g: Seq<Cell>, col: Color, r: int, c: int, d: Direction) -> int {
    if captures_in_dir(g, col, r, c, d) {
        choose|n: int| line_captures(g, col, r, c, d, n)
    } else {
        0
    }
}

/// A placement is legal when the target carries the candidate flag and at
/// least one direction yields a capture.
pub open spec fn legal_placement(g: Seq<Cell>, col: Color, r: int, c: int) -> bool {
    &&& in_range(r, c)
    &&& cell_at(g, r, c) == Cell::Candidate
    &&& exists|d: Direction| captures_in_dir(g, col, r, c, d)
}

/// Whether `col` has any legal placement on the grid.
pub open spec fn can_move(g: Seq<Cell>, col: Color) -> bool {
    exists|r: int, c: int| legal_placement(g, col, r, c)
}

/// Whether flat index t lies on some capture line of the placement.
pub open spec fn on_capture_line(g: Seq<Cell>, col: Color, r: int, c: int, t: int) -> bool {
    exists|d: Direction, k: int|
        1 <= k <= cap_len(g, col, r, c, d) && t == #[trigger] ray_index(r, c, d, k)
}

/// The grid after a successful placement by `col` at (r, c): the placed disc
/// plus every cell on every capture line flipped to `col`.
pub open spec fn place_result(g: Seq<Cell>, col: Color, r: int, c: int) -> Seq<Cell> {
    Seq::new(64, |t: int|
        if t == idx(r, c) {
            Cell::Disc(col)
        } else if on_capture_line(g, col, r, c, t) {
            Cell::Disc(col)
        } else {
            g[t]
        })
}

/// The number of flipped cells among the first n flat indices.
pub open spec fn flipped_upto(g: Seq<Cell>, col: Color, r: int, c: int, n: int) -> int
    decreases n,
{
    if n <= 0 {
        0
    } else {
        flipped_upto(g, col, r, c, n - 1) + if on_capture_line(g, col, r, c, n - 1) {
            1int
        } else {
            0int
        }
    }
}

/// The total number of cells a placement flips.
pub open spec fn flipped_count(g: Seq<Cell>, col: Color, r: int, c: int) -> int {
    flipped_upto(g, col, r, c, 64)
}

/// The eight directions in a fixed order.
pub open spec fn dir_seq() -> Seq<Direction> {
    seq![
        Direction::Up,
        Direction::Down,
        Direction::Left,
        Direction::Right,
        Direction::UpLeft,
        Direction::UpRight,
        Direction::DownLeft,
        Direction::DownRight,
    ]
}

/// Every direction appears in `dir_seq`.
proof fn lemma_dir_seq_complete(d: Direction)
    ensures
        exists|t: int| 0 <= t < 8 && dir_seq()[t] == d,
{
    match d {
        Direction::Up => assert(dir_seq()[0] == d),
        Direction::Down => assert(dir_seq()[1] == d),
        Direction::Left => assert(dir_seq()[2] == d),
        Direction::Right => assert(dir_seq()[3] == d),
        Direction::UpLeft => assert(dir_seq()[4] == d),
        Direction::UpRight => assert(dir_seq()[5] == d),
        Direction::DownLeft => assert(dir_seq()[6] == d),
        Direction::DownRight => assert(dir_seq()[7] == d),
    }
}

/// The direction at position i of the fixed order.
fn dir_at(i: usize) -> (d: Direction)
    requires
        i < 8,
    ensures
        d == dir_seq()[i as int],
{
    if i == 0 {
        Direction::Up
    } else if i == 1 {
        Direction::Down
    } else if i == 2 {
        Direction::Left
    } else if i == 3 {
        Direction::Right
    } else if i == 4 {
        Direction::UpLeft
    } else if i == 5 {
        Direction::UpRight
    } else if i == 6 {
        Direction::DownLeft
    } else {
        Direction::DownRight
    }
}

/// Direction steps are unit steps: each component is -1, 0 or 1, and they
/// are not both 0.
proof fn lemma_delta_bounds(d: Direction)
    ensures
        -1 <= delta(d).0 <= 1,
        -1 <= delta(d).1 <= 1,
        delta(d).0 != 0 || delta(d).1 != 0,
{
}

/// The closed form of a ray position.
proof fn lemma_ray_coords(r: int, c: int, d: Direction, k: int)
    requires
        k >= 0,
    ensures
        ray(r, c, d, k).0 == r + k * delta(d).0,
        ray(r, c, d, k).1 == c + k * delta(d).1,
    decreases k,
{
    if k > 0 {
        lemma_ray_coords(r, c, d, k - 1);
        assert((k - 1) * delta(d).0 + delta(d).0 == k * delta(d).0) by (nonlinear_arith);
        assert((k - 1) * delta(d).1 + delta(d).1 == k * delta(d).1) by (nonlinear_arith);
    }
}

/// A ray that starts and stays on the board makes at most 7 steps.
proof fn lemma_ray_bound(r: int, c: int, d: Direction, k: int)
    requires
        in_range(r, c),
        k >= 0,
        ray_in_range(r, c, d, k),
    ensures
        k <= 7,
{
    lemma_ray_coords(r, c, d, k);
    lemma_delta_bounds(d);
    let dr = delta(d).0;
    let dc = delta(d).1;
    if k > 7 {
        if dr == 1 {
            assert(k * dr == k) by (nonlinear_arith)
                requires dr == 1;
        } else if dr == -1 {
            assert(k * dr == -k) by (nonlinear_arith)
                requires dr == -1;
        } else if dc == 1 {
            assert(k * dc == k) by (nonlinear_arith)
                requires dc == 1;
        } else {
            assert(dc == -1);
            assert(k * dc == -k) by (nonlinear_arith)
                requires dc == -1;
        }
    }
}

/// Two capture lines along the same direction have the same length.
proof fn lemma_line_unique(
    g: Seq<Cell>,
    col: Color,
    r: int,
    c: int,
    d: Direction,
    n1: int,
    n2: int,
)
    requires
        line_captures(g, col, r, c, d, n1),
        line_captures(g, col, r, c, d, n2),
    ensures
        n1 == n2,
{
    if n1 < n2 {
        assert(cell_on_ray(g, r, c, d, n1 + 1) == Cell::Disc(col));
        assert(cell_on_ray(g, r, c, d, n1 + 1) == Cell::Disc(opposite(col)));
    } else if n2 < n1 {
        assert(cell_on_ray(g, r, c, d, n2 + 1) == Cell::Disc(col));
        assert(cell_on_ray(g, r, c, d, n2 + 1) == Cell::Disc(opposite(col)));
    }
}

/// A witnessed capture line pins `cap_len` down.
proof fn lemma_cap_len(g: Seq<Cell>, col: Color, r: int, c: int, d: Direction, n: int)
    requires
        line_captures(g, col, r, c, d, n),
    ensures
        captures_in_dir(g, col, r, c, d),
        cap_len(g, col, r, c, d) == n,
{
    assert(captures_in_dir(g, col, r, c, d));
    let m = choose|m: int| line_captures(g, col, r, c, d, m);
    lemma_line_unique(g, col, r, c, d, m, n);
}

/// When a direction captures, its line is the `cap_len`-long one, and the
/// length is between 1 and 6.
proof fn lemma_cap_len_line(g: Seq<Cell>, col: Color, r: int, c: int, d: Direction)
    requires
        in_range(r, c),
        captures_in_dir(g, col, r, c, d),
    ensures
        line_captures(g, col, r, c, d, cap_len(g, col, r, c, d)),
        1 <= cap_len(g, col, r, c, d) <= 6,
{
    let n = cap_len(g, col, r, c, d);
    assert(line_captures(g, col, r, c, d, n));
    assert(ray_in_range(r, c, d, n + 1));
    lemma_ray_bound(r, c, d, n + 1);
}

/// A cell on a capture line holds an opponent disc.
proof fn lemma_on_line_is_opp(g: Seq<Cell>, col: Color, r: int, c: int, t: int)
    requires
        grid_wf(g),
        in_range(r, c),
        on_capture_line(g, col, r, c, t),
    ensures
        0 <= t < 64,
        g[t] == Cell::Disc(opposite(col)),
{
    let (d, k) = choose|d: Direction, k: int|
        1 <= k <= cap_len(g, col, r, c, d) && t == #[trigger] ray_index(r, c, d, k);
    assert(captures_in_dir(g, col, r, c, d)) by {
        if !captures_in_dir(g, col, r, c, d) {
            assert(cap_len(g, col, r, c, d) == 0);
        }
    }
    lemma_cap_len_line(g, col, r, c, d);
    assert(ray_in_range(r, c, d, k));
    assert(cell_on_ray(g, r, c, d, k) == Cell::Disc(opposite(col)));
    lemma_idx_inverse(ray(r, c, d, k).0, ray(r, c, d, k).1);
}

/// The step one position along d, bounds-checked against the board edge.
fn step(r: usize, c: usize, d: Direction) -> (res: (bool, usize, usize))
    requires
        in_range(r as int, c as int),
    ensures
        res.0 == in_range(r as int + delta(d).0, c as int + delta(d).1),
        res.0 ==> res.1 as int == r as int + delta(d).0 && res.2 as int == c as int + delta(d).1,
{
    match d {
        Direction::Up => if r >= 2 {
            (true, r - 1, c)
        } else {
            (false, 0, 0)
        },
        Direction::Down => if r <= 7 {
            (true, r + 1, c)
        } else {
            (false, 0, 0)
        },
        Direction::Left => if c >= 2 {
            (true, r, c - 1)
        } else {
            (false, 0, 0)
        },
        Direction::Right => if c <= 7 {
            (true, r, c + 1)
        } else {
            (false, 0, 0)
        },
        Direction::UpLeft => if r >= 2 && c >= 2 {
            (true, r - 1, c - 1)
        } else {
            (false, 0, 0)
        },
        Direction::UpRight => if r >= 2 && c <= 7 {
            (true, r - 1, c + 1)
        } else {
            (false, 0, 0)
        },
        Direction::DownLeft => if r <= 7 && c >= 2 {
            (true, r + 1, c - 1)
        } else {
            (false, 0, 0)
        },
        Direction::DownRight => if r <= 7 && c <= 7 {
            (true, r + 1, c + 1)
        } else {
            (false, 0, 0)
        },
    }
}

impl Board {
    /// Dry-run scan along one direction: the length of the capturable run of
    /// opponent discs, or 0 when this direction yields no capture.
    fn scan_dir(&self, col: Color, r: usize, c: usize, d: Direction) -> (n: usize)
        requires
            self.wf(),
            in_range(r as int, c as int),
        ensures
            n as int == cap_len(self@, col, r as int, c as int, d),
            n > 0 <==> captures_in_dir(self@, col, r as int, c as int, d),
    {
        let mut k: usize = 0;
        let mut cr = r;
        let mut cc = c;
        loop
            invariant
                self.wf(),
                in_range(r as int, c as int),
                k <= 7,
                cr as int == ray(r as int, c as int, d, k as int).0,
                cc as int == ray(r as int, c as int, d, k as int).1,
                in_range(cr as int, cc as int),
                forall|j: int| 1 <= j <= k ==> #[trigger] ray_in_range(r as int, c as int, d, j),
                forall|j: int|
                    1 <= j <= k ==> #[trigger] cell_on_ray(self@, r as int, c as int, d, j)
                        == Cell::Disc(opposite(col)),
            decreases 8 - k,
        {
            let (ok, nr, nc) = step(cr, cc, d);
            if !ok {
                proof {
                    let gi = self@;
                    let rii = r as int;
                    let cii = c as int;
                    let ki = k as int;
                    assert(!ray_in_range(rii, cii, d, ki + 1));
                    assert forall|n: int| !line_captures(gi, col, rii, cii, d, n) by {
                        if 1 <= n {
                            if n + 1 <= ki {
                                assert(cell_on_ray(gi, rii, cii, d, n + 1) == Cell::Disc(
                                    opposite(col),
                                ));
                            } else if n == ki {
                                assert(!ray_in_range(rii, cii, d, n + 1));
                            } else {
                                assert(!ray_in_range(rii, cii, d, ki + 1));
                            }
                        }
                    }
                    assert(!captures_in_dir(gi, col, rii, cii, d));
                }
                return 0;
            }
            proof {
                assert(ray(r as int, c as int, d, k as int + 1).0 == nr as int);
                assert(ray(r as int, c as int, d, k as int + 1).1 == nc as int);
            }
            match self.get_cell(nr, nc) {
                Cell::Disc(dcol) => {
                    let opp = col.other();
                    if dcol == opp {
                        proof {
                            lemma_ray_bound(r as int, c as int, d, k as int + 1);
                        }
                        k = k + 1;
                        cr = nr;
                        cc = nc;
                    } else {
                        // a disc of the mover's own color terminates the run
                        if k > 0 {
                            proof {
                                assert(line_captures(self@, col, r as int, c as int, d, k as int));
                                lemma_cap_len(self@, col, r as int, c as int, d, k as int);
                            }
                            return k;
                        } else {
                            proof {
                                let gi = self@;
                                let rii = r as int;
                                let cii = c as int;
                                assert(cell_on_ray(gi, rii, cii, d, 1) == Cell::Disc(col));
                                assert forall|n: int| !line_captures(gi, col, rii, cii, d, n) by {
                                    if 1 <= n {
                                        assert(cell_on_ray(gi, rii, cii, d, 1) == Cell::Disc(col));
                                    }
                                }
                                assert(!captures_in_dir(gi, col, rii, cii, d));
                            }
                            return 0;
                        }
                    }
                },
                _ => {
                    proof {
                        let gi = self@;
                        let rii = r as int;
                        let cii = c as int;
                        let ki = k as int;
                        assert(is_disc(cell_on_ray(gi, rii, cii, d, ki + 1)) == false);
                        assert forall|n: int| !line_captures(gi, col, rii, cii, d, n) by {
                            if 1 <= n {
                                if n + 1 <= ki {
                                    assert(cell_on_ray(gi, rii, cii, d, n + 1) == Cell::Disc(
                                        opposite(col),
                                    ));
                                } else if n == ki {
                                    assert(cell_on_ray(gi, rii, cii, d, ki + 1) != Cell::Disc(col));
                                } else {
                                    assert(cell_on_ray(gi, rii, cii, d, ki + 1) != Cell::Disc(
                                        opposite(col),
                                    ));
                                }
                            }
                        }
                        assert(!captures_in_dir(gi, col, rii, cii, d));
                    }
                    return 0;
                },
            }
        }
    }
}

/// Flipped-cell counts are nonnegative.
proof fn lemma_flipped_nonneg(g: Seq<Cell>, col: Color, r: int, c: int, n: int)
    requires
        n >= 0,
    ensures
        0 <= flipped_upto(g, col, r, c, n),
    decreases n,
{
    if n > 0 {
        lemma_flipped_nonneg(g, col, r, c, n - 1);
    }
}

/// A cell on a capture line makes the flipped-cell count positive.
proof fn lemma_flipped_pos(g: Seq<Cell>, col: Color, r: int, c: int, t: int, n: int)
    requires
        0 <= t < n,
        on_capture_line(g, col, r, c, t),
    ensures
        flipped_upto(g, col, r, c, n) >= 1,
    decreases n,
{
    if t == n - 1 {
        lemma_flipped_nonneg(g, col, r, c, n - 1);
    } else {
        lemma_flipped_pos(g, col, r, c, t, n - 1);
    }
}

/// The disc counts of the first n cells, before and after a placement: the
/// mover gains the placed disc (when its index is below n) plus one per
/// flipped cell, the opponent loses exactly the flipped cells.
proof fn lemma_counts_upto(g: Seq<Cell>, col: Color, r: int, c: int, n: int)
    requires
        grid_wf(g),
        legal_placement(g, col, r, c),
        0 <= n <= 64,
    ensures
        count_discs_upto(place_result(g, col, r, c), col, n) == count_discs_upto(g, col, n)
            + flipped_upto(g, col, r, c, n) + (if idx(r, c) < n {
            1int
        } else {
            0int
        }),
        count_discs_upto(place_result(g, col, r, c), opposite(col), n) == count_discs_upto(
            g,
            opposite(col),
            n,
        ) - flipped_upto(g, col, r, c, n),
    decreases n,
{
    if n > 0 {
        lemma_counts_upto(g, col, r, c, n - 1);
        let g2 = place_result(g, col, r, c);
        let i = n - 1;
        lemma_idx_inverse(r, c);
        if i == idx(r, c) {
            assert(cell_at(g, r, c) == Cell::Candidate);
            if on_capture_line(g, col, r, c, i) {
                lemma_on_line_is_opp(g, col, r, c, i);
            }
            assert(g2[i] == Cell::Disc(col));
            assert(g[i] != Cell::Disc(col) && g[i] != Cell::Disc(opposite(col)));
        } else if on_capture_line(g, col, r, c, i) {
            lemma_on_line_is_opp(g, col, r, c, i);
            assert(g2[i] == Cell::Disc(col));
            assert(g[i] == Cell::Disc(opposite(col)));
            assert(opposite(col) != col);
        } else {
            assert(g2[i] == g[i]);
        }
    }
}

/// After any successful placement the mover's disc count rises by one plus
/// the number of flipped cells, the opponent's count falls by exactly the
/// flipped cells, at least one cell flips, and the total disc count rises by
/// exactly one.
pub proof fn lemma_placement_counts(g: Seq<Cell>, col: Color, r: int, c: int)
    requires
        grid_wf(g),
        legal_placement(g, col, r, c),
    ensures
        count_discs(place_result(g, col, r, c), col) == count_discs(g, col) + 1 + flipped_count(
            g,
            col,
            r,
            c,
        ),
        count_discs(place_result(g, col, r, c), opposite(col)) == count_discs(g, opposite(col))
            - flipped_count(g, col, r, c),
        flipped_count(g, col, r, c) >= 1,
        count_discs(place_result(g, col, r, c), col) + count_discs(
            place_result(g, col, r, c),
            opposite(col),
        ) == count_discs(g, col) + count_discs(g, opposite(col)) + 1,
{
    lemma_counts_upto(g, col, r, c, 64);
    lemma_idx_inverse(r, c);
    let d = choose|d: Direction| captures_in_dir(g, col, r, c, d);
    lemma_cap_len_line(g, col, r, c, d);
    let t = ray_index(r, c, d, 1);
    assert(on_capture_line(g, col, r, c, t));
    assert(ray_in_range(r, c, d, 1));
    lemma_idx_inverse(ray(r, c, d, 1).0, ray(r, c, d, 1).1);
    lemma_flipped_pos(g, col, r, c, t, 64);
}

/// Whether flat index t lies on the first n cells of the ray along d.
pub open spec fn on_ray_prefix(r: int, c: int, d: Direction, n: int, t: int) -> bool {
    exists|k: int| 1 <= k <= n && t == #[trigger] ray_index(r, c, d, k)
}

/// Whether flat index t lies on a capture line of one of the first m
/// directions of the fixed order.
pub open spec fn on_line_upto(g: Seq<Cell>, col: Color, r: int, c: int, m: int, t: int) -> bool {
    exists|u: int, k: int|
        0 <= u < m && 1 <= k <= cap_len(g, col, r, c, dir_seq()[u]) && t == #[trigger] ray_index(
            r,
            c,
            dir_seq()[u],
            k,
        )
}

impl Board {
    /// Flip the first n cells of the ray along d to discs of `col`.
    fn flip_ray(&mut self, col: Color, r: usize, c: usize, d: Direction, n: usize)
        requires
            old(self).wf(),
            in_range(r as int, c as int),
            n <= 7,
            forall|j: int| 1 <= j <= n ==> #[trigger] ray_in_range(r as int, c as int, d, j),
        ensures
            final(self).wf(),
            forall|j: int|
                1 <= j <= n ==> final(self)@[#[trigger] ray_index(r as int, c as int, d, j)]
                    == Cell::Disc(col),
            forall|t: int|
                0 <= t < 64 && !on_ray_prefix(r as int, c as int, d, n as int, t)
                    ==> final(self)@[t] == old(self)@[t],
    {
        let ghost g0: Seq<Cell> = self@;
        let mut k: usize = 0;
        let mut cr = r;
        let mut cc = c;
        while k < n
            invariant
                self.wf(),
                g0.len() == 64,
                in_range(r as int, c as int),
                n <= 7,
                k <= n,
                cr as int == ray(r as int, c as int, d, k as int).0,
                cc as int == ray(r as int, c as int, d, k as int).1,
                in_range(cr as int, cc as int),
                forall|j: int| 1 <= j <= n ==> #[trigger] ray_in_range(r as int, c as int, d, j),
                forall|j: int|
                    1 <= j <= k ==> self@[#[trigger] ray_index(r as int, c as int, d, j)]
                        == Cell::Disc(col),
                forall|t: int|
                    0 <= t < 64 && !on_ray_prefix(r as int, c as int, d, k as int, t) ==> self@[t]
                        == g0[t],
            decreases n - k,
        {
            let (ok, nr, nc) = step(cr, cc, d);
            proof {
                assert(ray_in_range(r as int, c as int, d, k as int + 1));
                assert(ray(r as int, c as int, d, k as int + 1).0 == cr as int + delta(d).0);
                assert(ray(r as int, c as int, d, k as int + 1).1 == cc as int + delta(d).1);
            }
            let ghost pre = self@;
            self.set_cell(nr, nc, Cell::Disc(col));
            proof {
                lemma_idx_inverse(nr as int, nc as int);
                let ri = r as int;
                let ci = c as int;
                let ki = k as int;
                let wi = ray_index(ri, ci, d, ki + 1);
                assert(self@[wi] == Cell::Disc(col));
                assert forall|j: int| 1 <= j <= ki + 1 implies self@[#[trigger] ray_index(
                    ri,
                    ci,
                    d,
                    j,
                )] == Cell::Disc(col) by {
                    assert(ray_in_range(ri, ci, d, j));
                    lemma_idx_inverse(ray(ri, ci, d, j).0, ray(ri, ci, d, j).1);
                }
                assert forall|t: int|
                    0 <= t < 64 && !on_ray_prefix(ri, ci, d, ki + 1, t) implies self@[t]
                    == g0[t] by {
                    assert(t != wi);
                    assert(!on_ray_prefix(ri, ci, d, ki, t));
                }
            }
            k = k + 1;
            cr = nr;
            cc = nc;
        }
    }

    /// Attempt to place a disc of `color` at (row, col). The placement
    /// succeeds exactly when the target carries the candidate flag and at
    /// least one of the eight directions yields a capture; all eight
    /// directions are evaluated and every capture line is flipped in the one
    /// placement. On failure the grid is left untouched.
    pub fn attempt_place(&mut self, color: Color, row: usize, col: usize) -> (placed: bool)
        requires
            old(self).wf(),
            in_range(row as int, col as int),
        ensures
            final(self).wf(),
            placed == legal_placement(old(self)@, color, row as int, col as int),
            !placed ==> final(self)@ == old(self)@,
            placed ==> final(self)@ == place_result(old(self)@, color, row as int, col as int),
    {
        let ghost g0: Seq<Cell> = self@;
        let ghost ri = row as int;
        let ghost ci = col as int;
        match self.get_cell(row, col) {
            Cell::Candidate => {},
            _ => {
                return false;
            },
        }
        // evaluate all eight directions unconditionally on the untouched grid
        let mut lens: Vec<usize> = Vec::new();
        let mut any = false;
        let mut t: usize = 0;
        while t < 8
            invariant
                self.wf(),
                self@ == g0,
                in_range(ri, ci),
                row as int == ri,
                col as int == ci,
                lens@.len() == t,
                t <= 8,
                forall|u: int|
                    0 <= u < t ==> #[trigger] lens@[u] as int == cap_len(
                        g0,
                        color,
                        ri,
                        ci,
                        dir_seq()[u],
                    ),
                any <==> exists|u: int|
                    0 <= u < t && cap_len(g0, color, ri, ci, #[trigger] dir_seq()[u]) > 0,
            decreases 8 - t,
        {
            let d = dir_at(t);
            let n = self.scan_dir(color, row, col, d);
            if n > 0 {
                any = true;
                proof {
                    assert(cap_len(g0, color, ri, ci, dir_seq()[t as int]) > 0);
                }
            }
            lens.push(n);
            t = t + 1;
        }
        if !any {
            proof {
                assert forall|d: Direction| !captures_in_dir(g0, color, ri, ci, d) by {
                    lemma_dir_seq_complete(d);
                    let u = choose|u: int| 0 <= u < 8 && dir_seq()[u] == d;
                    if captures_in_dir(g0, color, ri, ci, d) {
                        let n0 = choose|n: int| line_captures(g0, color, ri, ci, d, n);
                        assert(cap_len(g0, color, ri, ci, d) == n0);
                        assert(n0 >= 1);
                    }
                }
            }
            return false;
        }
        self.set_cell(row, col, Cell::Disc(color));
        let mut t: usize = 0;
        while t < 8
            invariant
                self.wf(),
                g0.len() == 64,
                in_range(ri, ci),
                row as int == ri,
                col as int == ci,
                t <= 8,
                lens@.len() == 8,
                forall|u: int|
                    0 <= u < 8 ==> #[trigger] lens@[u] as int == cap_len(
                        g0,
                        color,
                        ri,
                        ci,
                        dir_seq()[u],
                    ),
                forall|i: int|
                    0 <= i < 64 ==> #[trigger] self@[i] == (if i == idx(ri, ci) {
                        Cell::Disc(color)
                    } else if on_line_upto(g0, color, ri, ci, t as int, i) {
                        Cell::Disc(color)
                    } else {
                        g0[i]
                    }),
            decreases 8 - t,
        {
            let d = dir_at(t);
            let n = lens[t];
            proof {
                if n > 0 {
                    assert(captures_in_dir(g0, color, ri, ci, d)) by {
                        if !captures_in_dir(g0, color, ri, ci, d) {
                            assert(cap_len(g0, color, ri, ci, d) == 0);
                        }
                    }
                    lemma_cap_len_line(g0, color, ri, ci, d);
                }
            }
            let ghost pre = self@;
            self.flip_ray(color, row, col, d, n);
            proof {
                let ti = t as int;
                let ni = n as int;
                assert forall|i: int| 0 <= i < 64 implies #[trigger] self@[i] == (if i == idx(
                    ri,
                    ci,
                ) {
                    Cell::Disc(color)
                } else if on_line_upto(g0, color, ri, ci, ti + 1, i) {
                    Cell::Disc(color)
                } else {
                    g0[i]
                }) by {
                    if on_ray_prefix(ri, ci, d, ni, i) {
                        let k = choose|k: int|
                            1 <= k <= ni && i == #[trigger] ray_index(ri, ci, d, k);
                        assert(self@[ray_index(ri, ci, d, k)] == Cell::Disc(color));
                        if i != idx(ri, ci) {
                            assert(on_line_upto(g0, color, ri, ci, ti + 1, i));
                        }
                    } else {
                        assert(self@[i] == pre[i]);
                        if i != idx(ri, ci) {
                            if on_line_upto(g0, color, ri, ci, ti + 1, i) {
                                let (u, k) = choose|u: int, k: int|
                                    0 <= u < ti + 1 && 1 <= k <= cap_len(
                                        g0,
                                        color,
                                        ri,
                                        ci,
                                        dir_seq()[u],
                                    ) && i == #[trigger] ray_index(ri, ci, dir_seq()[u], k);
                                if u == ti {
                                    assert(on_ray_prefix(ri, ci, d, ni, i));
                                } else {
                                    assert(on_line_upto(g0, color, ri, ci, ti, i));
                                }
                            } else {
                                assert(!on_line_upto(g0, color, ri, ci, ti, i));
                            }
                        }
                    }
                }
            }
            t = t + 1;
        }
        proof {
            assert forall|i: int| 0 <= i < 64 implies self@[i] == place_result(g0, color, ri, ci)[i] by {
                if i != idx(ri, ci) {
                    if on_line_upto(g0, color, ri, ci, 8, i) {
                        let (u, k) = choose|u: int, k: int|
                            0 <= u < 8 && 1 <= k <= cap_len(g0, color, ri, ci, dir_seq()[u]) && i
                                == #[trigger] ray_index(ri, ci, dir_seq()[u], k);
                        assert(on_capture_line(g0, color, ri, ci, i));
                    } else if on_capture_line(g0, color, ri, ci, i) {
                        let (d, k) = choose|d: Direction, k: int|
                            1 <= k <= cap_len(g0, color, ri, ci, d) && i == #[trigger] ray_index(
                                ri,
                                ci,
                                d,
                                k,
                            );
                        lemma_dir_seq_complete(d);
                        let u = choose|u: int| 0 <= u < 8 && dir_seq()[u] == d;
                        assert(on_line_upto(g0, color, ri, ci, 8, i));
                    }
                }
            }
            assert(self@ =~= place_result(g0, color, ri, ci));
            let u0 = choose|u: int|
                0 <= u < 8 && cap_len(g0, color, ri, ci, #[trigger] dir_seq()[u]) > 0;
            assert(captures_in_dir(g0, color, ri, ci, dir_seq()[u0])) by {
                if !captures_in_dir(g0, color, ri, ci, dir_seq()[u0]) {
                    assert(cap_len(g0, color, ri, ci, dir_seq()[u0]) == 0);
                }
            }
            assert(legal_placement(g0, color, ri, ci));
        }
        true
    }

    /// Dry-run legality test: whether placing `color` at (row, col) would
    /// capture in some direction. The grid is not touched.
    pub fn can_place(&self, color: Color, row: usize, col: usize) -> (b: bool)
        requires
            self.wf(),
            in_range(row as int, col as int),
        ensures
            b == legal_placement(self@, color, row as int, col as int),
    {
        let ghost ri = row as int;
        let ghost ci = col as int;
        match self.get_cell(row, col) {
            Cell::Candidate => {},
            _ => {
                return false;
            },
        }
        let mut t: usize = 0;
        while t < 8
            invariant
                self.wf(),
                in_range(ri, ci),
                row as int == ri,
                col as int == ci,
                cell_at(self@, ri, ci) == Cell::Candidate,
                t <= 8,
                forall|u: int|
                    0 <= u < t ==> !captures_in_dir(self@, color, ri, ci, #[trigger] dir_seq()[u]),
            decreases 8 - t,
        {
            let d = dir_at(t);
            let n = self.scan_dir(color, row, col, d);
            if n > 0 {
                return true;
            }
            t = t + 1;
        }
        proof {
            assert forall|d: Direction| !captures_in_dir(self@, color, ri, ci, d) by {
                lemma_dir_seq_complete(d);
            }
        }
        false
    }

    /// Whether `color` has at least one legal placement anywhere on the grid.
    pub fn has_legal_move(&self, color: Color) -> (b: bool)
        requires
            self.wf(),
        ensures
            b == can_move(self@, color),
    {
        let mut r: usize = 1;
        while r <= 8
            invariant
                self.wf(),
                1 <= r <= 9,
                forall|r2: int, c2: int|
                    in_range(r2, c2) && r2 < r ==> !#[trigger] legal_placement(
                        self@,
                        color,
                        r2,
                        c2,
                    ),
            decreases 9 - r,
        {
            let mut c: usize = 1;
            while c <= 8
                invariant
                    self.wf(),
                    1 <= r <= 8,
                    1 <= c <= 9,
                    forall|r2: int, c2: int|
                        in_range(r2, c2) && (r2 < r || (r2 == r && c2 < c))
                            ==> !#[trigger] legal_placement(self@, color, r2, c2),
                decreases 9 - c,
            {
                if self.can_place(color, r, c) {
                    return true;
                }
                c = c + 1;
            }
            r = r + 1;
        }
        false
    }
}

} // verus!
