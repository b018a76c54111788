//! Tests of the turn state machine: skip, domination, stalemate, pass and
//! resignation.

use reversi::board::{Board, Cell, Color};
use reversi::game::{GameSession, Move, MoveError, MoveOutcome, Turn};

/// Build a board from eight rows of eight characters: 'B' and 'W' are discs,
/// anything else is an empty (blocked) cell. Candidate flags are not set.
fn board_from(rows: [&str; 8]) -> Board {
    let mut cells: Vec<Cell> = Vec::new();
    for row in rows.iter() {
        assert_eq!(row.len(), 8);
        for ch in row.chars() {
            cells.push(match ch {
                'B' => Cell::Disc(Color::Black),
                'W' => Cell::Disc(Color::White),
                _ => Cell::Blocked,
            });
        }
    }
    Board::from_cells(cells)
}

/// Snapshot all 64 cells.
fn cells_of(b: &Board) -> Vec<Cell> {
    let mut out: Vec<Cell> = Vec::new();
    for r in 1..=8usize {
        for c in 1..=8usize {
            out.push(b.get_cell(r, c));
        }
    }
    out
}

#[test]
fn opening_placement_hands_turn_over() {
    let mut s = GameSession::new();
    assert_eq!(s.turn, Turn::ToMove(Color::Black));
    let res = s.handle_move(Move::Play(3, 4));
    assert_eq!(res, Ok(MoveOutcome::Placed));
    assert_eq!(s.turn, Turn::ToMove(Color::White));
}

#[test]
fn forced_skip_returns_turn_to_mover() {
    // Scenario: after Black's placement White has no legal move but Black
    // has, so the turn silently returns to Black.
    let board = board_from([
        "BW......",
        "........",
        "........",
        "........",
        "........",
        "........",
        "........",
        "BW......",
    ]);
    let mut s = GameSession::from_parts(board, Color::Black);
    let res = s.handle_move(Move::Play(1, 3));
    assert_eq!(res, Ok(MoveOutcome::Skipped));
    assert_eq!(s.turn, Turn::ToMove(Color::Black));
    // ... and Black can indeed still play.
    assert!(s.board.has_legal_move(Color::Black));
    assert!(!s.board.has_legal_move(Color::White));
}

#[test]
fn domination_ends_game_with_empty_cells_left() {
    // Scenario: the placement takes White's last disc; the game is over at
    // once although most of the board is still empty.
    let board = board_from([
        "BW......",
        "........",
        "........",
        "........",
        "........",
        "........",
        "........",
        "........",
    ]);
    let mut s = GameSession::from_parts(board, Color::Black);
    let res = s.handle_move(Move::Play(1, 3));
    assert_eq!(res, Ok(MoveOutcome::Dominated(Color::Black)));
    assert_eq!(s.turn, Turn::Over);
    let (_, black, white) = s.board.count_scores();
    assert_eq!((black, white), (3, 0));
    // Empty cells remain.
    assert_eq!(s.board.get_cell(5, 5), Cell::Blocked);
}

#[test]
fn stalemate_ends_game_with_scores() {
    // Scenario: after Black's placement neither color can place anywhere;
    // the game ends with the scoring outcome.
    let board = board_from([
        "BW......",
        "........",
        "........",
        "........",
        "........",
        "........",
        "........",
        ".......W",
    ]);
    let mut s = GameSession::from_parts(board, Color::Black);
    let res = s.handle_move(Move::Play(1, 3));
    assert_eq!(res, Ok(MoveOutcome::Ended(Some(Color::Black), 3, 1)));
    assert_eq!(s.turn, Turn::Over);
    // The reported counts equal a direct recount of the board.
    let mut black = 0u8;
    let mut white = 0u8;
    for r in 1..=8usize {
        for c in 1..=8usize {
            match s.board.get_cell(r, c) {
                Cell::Disc(Color::Black) => black += 1,
                Cell::Disc(Color::White) => white += 1,
                _ => {}
            }
        }
    }
    assert_eq!((black, white), (3, 1));
}

#[test]
fn illegal_pass_is_rejected() {
    // Scenario: the mover still has a legal placement; a pass changes
    // nothing and is reported as an error.
    let mut s = GameSession::new();
    let before = cells_of(&s.board);
    let res = s.handle_move(Move::Pass);
    assert_eq!(res, Err(MoveError::CannotPass));
    assert_eq!(s.turn, Turn::ToMove(Color::Black));
    assert_eq!(cells_of(&s.board), before);
}

#[test]
fn legal_pass_hands_turn_over() {
    // Black has no legal placement, White has one: the pass is accepted.
    let board = board_from([
        "WB......",
        "........",
        "........",
        "........",
        "........",
        "........",
        "........",
        "........",
    ]);
    let mut s = GameSession::from_parts(board, Color::Black);
    assert!(!s.board.has_legal_move(Color::Black));
    assert!(s.board.has_legal_move(Color::White));
    let res = s.handle_move(Move::Pass);
    assert_eq!(res, Ok(MoveOutcome::Passed));
    assert_eq!(s.turn, Turn::ToMove(Color::White));
}

#[test]
fn illegal_placement_is_rejected() {
    let mut s = GameSession::new();
    let before = cells_of(&s.board);
    let res = s.handle_move(Move::Play(1, 1));
    assert_eq!(res, Err(MoveError::IllegalPlacement));
    assert_eq!(s.turn, Turn::ToMove(Color::Black));
    assert_eq!(cells_of(&s.board), before);
}

#[test]
fn resignation_ends_game_at_once() {
    let mut s = GameSession::new();
    let before = cells_of(&s.board);
    let res = s.handle_move(Move::Resign);
    assert_eq!(res, Ok(MoveOutcome::Resigned));
    assert_eq!(s.turn, Turn::Over);
    assert_eq!(cells_of(&s.board), before);
}

#[test]
fn start_of_turn_check_leaves_live_game_alone() {
    let mut s = GameSession::new();
    let res = s.check_end_game();
    assert_eq!(res, None);
    assert_eq!(s.turn, Turn::ToMove(Color::Black));
}

#[test]
fn start_of_turn_check_ends_dead_game() {
    // Neither color can place: the check ends the game without waiting for
    // a pass from either side.
    let board = board_from([
        "B.......",
        "........",
        "........",
        "........",
        "........",
        "........",
        "........",
        "........",
    ]);
    let mut s = GameSession::from_parts(board, Color::White);
    let res = s.check_end_game();
    assert_eq!(res, Some(MoveOutcome::Ended(Some(Color::Black), 1, 0)));
    assert_eq!(s.turn, Turn::Over);
}
