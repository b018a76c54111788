//! The turn state machine: pass, forced skip, resignation, domination,
//! stalemate and the end-of-game outcome.

use vstd::prelude::*;
use crate::board::{
    Board, Cell, Color, count_discs, grid_wf, in_range, initial_cells, lemma_marked_idempotent,
    lemma_marked_preserves_counts, marked, opposite, winner_of,
};
use crate::capture::{
    can_move, flipped_count, legal_placement, lemma_placement_counts, place_result,
};

verus! {

/// Whose turn it is, or that the game has ended.
#[derive(Clone, Copy, PartialEq, Eq, Structural, Debug)]
pub enum Turn {
    ToMove(Color),
    Over,
}

/// A move request from the input source.
#[derive(Clone, Copy, PartialEq, Eq, Structural, Debug)]
pub enum Move {
    Play(usize, usize),
    Pass,
    Resign,
}

/// The tagged result of one handled turn.
#[derive(Clone, Copy, PartialEq, Eq, Debug)]
pub enum MoveOutcome {
    /// The placement was committed and the opponent moves next.
    Placed,
    /// The mover had no legal placement and handed the turn over.
    Passed,
    /// The opponent has no legal placement; the turn returns to the mover.
    Skipped,
    /// The mover resigned; the opponent wins.
    Resigned,
    /// The placement removed the opponent's last disc; the mover wins.
    Dominated(Color),
    /// Neither color can place: the final winner and both disc counts.
    Ended(Option<Color>, u8, u8),
}

/// Why a move request was rejected; the grid and the turn are unchanged.
#[derive(Clone, Copy, PartialEq, Eq, Structural, Debug)]
pub enum MoveError {
    /// The target cell is no candidate, or no direction captures.
    IllegalPlacement,
    /// The mover still has a legal placement and may not pass.
    CannotPass,
}

/// Whether ch is a column digit, '1' through '8'.
pub open spec fn is_col_digit(ch: char) -> bool {
    '1' <= ch && ch <= '8'
}

/// Whether ch is a row letter, 'a' through 'h' in either case.
pub open spec fn is_row_letter(ch: char) -> bool {
    ('a' <= ch && ch <= 'h') || ('A' <= ch && ch <= 'H')
}

/// The row a row letter encodes: 'a' and 'A' are row 1.
pub open spec fn row_value(ch: char) -> int {
    if 'a' <= ch && ch <= 'h' {
        ch as u32 - 'a' as u32 + 1
    } else {
        ch as u32 - 'A' as u32 + 1
    }
}

/// The column a digit encodes.
pub open spec fn col_value(ch: char) -> int {
    ch as u32 - '0' as u32
}

/// The move request a cleaned-up input line encodes: a single 'p' is a pass
/// and a single 'r' a resignation; a column digit followed by a row letter
/// is a placement; anything else is malformed.
pub open spec fn parse_spec(s: Seq<char>) -> Option<Move> {
    if s.len() == 1 {
        if s[0] == 'p' {
            Some(Move::Pass)
        } else if s[0] == 'r' {
            Some(Move::Resign)
        } else {
            None
        }
    } else if s.len() == 2 {
        if is_col_digit(s[0]) && is_row_letter(s[1]) {
            Some(Move::Play(row_value(s[1]) as usize, col_value(s[0]) as usize))
        } else {
            None
        }
    } else {
        None
    }
}

/// Parse one input line, already stripped down to its alphanumeric
/// characters. A parsed placement always lies on the board.
pub fn parse_move(input: &Vec<char>) -> (m: Option<Move>)
    ensures
        m == parse_spec(input@),
        match m {
            Some(Move::Play(r, c)) => in_range(r as int, c as int),
            _ => true,
        },
{
    if input.len() == 1 {
        let ch = input[0];
        if ch == 'p' {
            Some(Move::Pass)
        } else if ch == 'r' {
            Some(Move::Resign)
        } else {
            None
        }
    } else if input.len() == 2 {
        let col_ch = input[0];
        let row_ch = input[1];
        if col_ch >= '1' && col_ch <= '8' {
            if row_ch >= 'a' && row_ch <= 'h' {
                let row = (row_ch as u32 - 'a' as u32 + 1) as usize;
                let col = (col_ch as u32 - '0' as u32) as usize;
                Some(Move::Play(row, col))
            } else if row_ch >= 'A' && row_ch <= 'H' {
                let row = (row_ch as u32 - 'A' as u32 + 1) as usize;
                let col = (col_ch as u32 - '0' as u32) as usize;
                Some(Move::Play(row, col))
            } else {
                None
            }
        } else {
            None
        }
    } else {
        None
    }
}

/// The grid after a committed placement: discs placed and flipped, then the
/// candidate overlay recomputed.
pub open spec fn after_play(g: Seq<Cell>, col: Color, r: int, c: int) -> Seq<Cell> {
    marked(place_result(g, col, r, c))
}

/// After any successful placement, stated over the grid the session holds
/// once the turn is done: the mover's disc count rises by one plus the
/// number of flipped cells, the opponent's count falls by exactly the
/// flipped cells, at least one cell flips, and the total disc count rises by
/// exactly one.
pub proof fn lemma_play_counts(g: Seq<Cell>, col: Color, r: int, c: int)
    requires
        grid_wf(g),
        legal_placement(g, col, r, c),
    ensures
        count_discs(after_play(g, col, r, c), col) == count_discs(g, col) + 1 + flipped_count(
            g,
            col,
            r,
            c,
        ),
        count_discs(after_play(g, col, r, c), opposite(col)) == count_discs(g, opposite(col))
            - flipped_count(g, col, r, c),
        flipped_count(g, col, r, c) >= 1,
        count_discs(after_play(g, col, r, c), col) + count_discs(
            after_play(g, col, r, c),
            opposite(col),
        ) == count_discs(g, col) + count_discs(g, opposite(col)) + 1,
{
    lemma_placement_counts(g, col, r, c);
    lemma_marked_preserves_counts(place_result(g, col, r, c), col);
    lemma_marked_preserves_counts(place_result(g, col, r, c), opposite(col));
}

/// One running game: the grid and whose turn it is. The grid is owned by the
/// session; placements go through `handle_move`.
pub struct GameSession {
    pub board: Board,
    pub turn: Turn,
}

impl GameSession {
    /// The grid is well formed and its candidate overlay is fresh: the flags
    /// are exactly what a recomputation would produce.
    pub open spec fn wf(&self) -> bool {
        &&& self.board.wf()
        &&& self.board@ == marked(self.board@)
    }

    /// A fresh game: the standard start position, Black to move.
    pub fn new() -> (s: GameSession)
        ensures
            s.wf(),
            s.board@ == marked(initial_cells()),
            s.turn == Turn::ToMove(Color::Black),
    {
        let board = Board::new();
        proof {
            lemma_marked_idempotent(initial_cells());
        }
        GameSession { board, turn: Turn::ToMove(Color::Black) }
    }

    /// A session over a caller-supplied position; the candidate overlay is
    /// recomputed so the stored flags are trustworthy.
    pub fn from_parts(board: Board, mover: Color) -> (s: GameSession)
        requires
            board.wf(),
        ensures
            s.wf(),
            s.board@ == marked(board@),
            s.turn == Turn::ToMove(mover),
    {
        let ghost g0: Seq<Cell> = board@;
        let mut b = board;
        b.validate_cells();
        proof {
            lemma_marked_idempotent(g0);
        }
        GameSession { board: b, turn: Turn::ToMove(mover) }
    }

    /// Handle one move request of the mover.
    ///
    /// A `Play` that cannot capture is rejected with the grid untouched. A
    /// committed placement refreshes the candidate overlay and then, in
    /// order: ends the game with `Dominated` when the opponent has no disc
    /// left; ends it with `Ended` when neither color can place; hands the
    /// turn to the opponent when they can place; and otherwise returns it to
    /// the mover as `Skipped`. A `Pass` is accepted only when the mover
    /// truly has no legal placement. `Resign` ends the game at once.
    pub fn handle_move(&mut self, request: Move) -> (res: Result<MoveOutcome, MoveError>)
        requires
            old(self).wf(),
            old(self).turn is ToMove,
            match request {
                Move::Play(r, c) => in_range(r as int, c as int),
                _ => true,
            },
        ensures
            final(self).wf(),
            ({
                let mover = old(self).turn->ToMove_0;
                let opp = opposite(mover);
                let g = old(self).board@;
                match request {
                    Move::Play(r, c) => {
                        if !legal_placement(g, mover, r as int, c as int) {
                            &&& res == Err::<MoveOutcome, MoveError>(MoveError::IllegalPlacement)
                            &&& final(self).board@ == g
                            &&& final(self).turn == old(self).turn
                        } else {
                            let g2 = after_play(g, mover, r as int, c as int);
                            &&& final(self).board@ == g2
                            &&& (if count_discs(g2, opp) == 0 {
                                final(self).turn == Turn::Over && res == Ok::<MoveOutcome, MoveError>(
                                    MoveOutcome::Dominated(mover),
                                )
                            } else if !can_move(g2, Color::Black) && !can_move(g2, Color::White) {
                                final(self).turn == Turn::Over && res == Ok::<MoveOutcome, MoveError>(
                                    MoveOutcome::Ended(
                                        winner_of(g2),
                                        count_discs(g2, Color::Black) as u8,
                                        count_discs(g2, Color::White) as u8,
                                    ),
                                )
                            } else if can_move(g2, opp) {
                                final(self).turn == Turn::ToMove(opp) && res == Ok::<
                                    MoveOutcome,
                                    MoveError,
                                >(MoveOutcome::Placed)
                            } else {
                                final(self).turn == Turn::ToMove(mover) && res == Ok::<
                                    MoveOutcome,
                                    MoveError,
                                >(MoveOutcome::Skipped)
                            })
                        }
                    },
                    Move::Pass => {
                        if can_move(g, mover) {
                            &&& res == Err::<MoveOutcome, MoveError>(MoveError::CannotPass)
                            &&& final(self).board@ == g
                            &&& final(self).turn == old(self).turn
                        } else {
                            &&& final(self).board@ == g
                            &&& final(self).turn == Turn::ToMove(opp)
                            &&& res == Ok::<MoveOutcome, MoveError>(MoveOutcome::Passed)
                        }
                    },
                    Move::Resign => {
                        &&& final(self).board@ == g
                        &&& final(self).turn == Turn::Over
                        &&& res == Ok::<MoveOutcome, MoveError>(MoveOutcome::Resigned)
                    },
                }
            }),
    {
        let ghost g0: Seq<Cell> = self.board@;
        let mover = match self.turn {
            Turn::ToMove(c) => c,
            Turn::Over => Color::Black,
        };
        let opp = mover.other();
        match request {
            Move::Play(r, c) => {
                let placed = self.board.attempt_place(mover, r, c);
                if !placed {
                    return Err(MoveError::IllegalPlacement);
                }
                self.board.validate_cells();
                proof {
                    lemma_marked_idempotent(place_result(g0, mover, r as int, c as int));
                }
                let (_, bcount, wcount) = self.board.count_scores();
                let oppcount = match mover {
                    Color::Black => wcount,
                    Color::White => bcount,
                };
                if oppcount == 0 {
                    self.turn = Turn::Over;
                    return Ok(MoveOutcome::Dominated(mover));
                }
                let black_can = self.board.has_legal_move(Color::Black);
                let white_can = self.board.has_legal_move(Color::White);
                if !black_can && !white_can {
                    self.turn = Turn::Over;
                    let (winner, b, w) = self.board.count_scores();
                    return Ok(MoveOutcome::Ended(winner, b, w));
                }
                let opp_can = match mover {
                    Color::Black => white_can,
                    Color::White => black_can,
                };
                if opp_can {
                    self.turn = Turn::ToMove(opp);
                    Ok(MoveOutcome::Placed)
                } else {
                    Ok(MoveOutcome::Skipped)
                }
            },
            Move::Pass => {
                if self.board.has_legal_move(mover) {
                    Err(MoveError::CannotPass)
                } else {
                    self.turn = Turn::ToMove(opp);
                    Ok(MoveOutcome::Passed)
                }
            },
            Move::Resign => {
                self.turn = Turn::Over;
                Ok(MoveOutcome::Resigned)
            },
        }
    }

    /// Start-of-turn check: when neither color has a legal placement left,
    /// the game ends at once with the scoring outcome; otherwise nothing
    /// changes.
    pub fn check_end_game(&mut self) -> (res: Option<MoveOutcome>)
        requires
            old(self).wf(),
            old(self).turn is ToMove,
        ensures
            final(self).wf(),
            final(self).board == old(self).board,
            ({
                let g = old(self).board@;
                if !can_move(g, Color::Black) && !can_move(g, Color::White) {
                    final(self).turn == Turn::Over && res == Some(
                        MoveOutcome::Ended(
                            winner_of(g),
                            count_discs(g, Color::Black) as u8,
                            count_discs(g, Color::White) as u8,
                        ),
                    )
                } else {
                    final(self).turn == old(self).turn && res is None
                }
            }),
    {
        let black_can = self.board.has_legal_move(Color::Black);
        let white_can = self.board.has_legal_move(Color::White);
        if !black_can && !white_can {
            self.turn = Turn::Over;
            let (winner, b, w) = self.board.count_scores();
            Some(MoveOutcome::Ended(winner, b, w))
        } else {
            None
        }
    }
}

} // verus!
