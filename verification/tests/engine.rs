//! Tests of the grid, the candidate overlay and the capture engine.

use reversi::board::{Board, Cell, Color};

/// Build a board from eight rows of eight characters: 'B' and 'W' are discs,
/// anything else is an empty (blocked) cell. Candidate flags are not set.
fn board_from(rows: [&str; 8]) -> Board {
    let mut cells: Vec<Cell> = Vec::new();
    for row in rows.iter() {
        assert_eq!(row.len(), 8);
        for ch in row.chars() {
            cells.push(match ch {
                'B' => Cell::Disc(Color::Black),
                'W' => Cell::Disc(Color::White),
                _ => Cell::Blocked,
            });
        }
    }
    Board::from_cells(cells)
}

/// Snapshot all 64 cells.
fn cells_of(b: &Board) -> Vec<Cell> {
    let mut out: Vec<Cell> = Vec::new();
    for r in 1..=8usize {
        for c in 1..=8usize {
            out.push(b.get_cell(r, c));
        }
    }
    out
}

#[test]
fn opening_legality() {
    // Scenario: the standard start. Black has exactly four legal placements.
    let board = Board::new();
    let legal = [(3usize, 4usize), (4, 3), (5, 6), (6, 5)];
    for r in 1..=8usize {
        for c in 1..=8usize {
            let expected = legal.contains(&(r, c));
            assert_eq!(board.can_place(Color::Black, r, c), expected, "cell ({}, {})", r, c);
        }
    }
    // Each of the four, if played, flips exactly one white disc.
    for &(r, c) in legal.iter() {
        let mut b = Board::new();
        assert!(b.attempt_place(Color::Black, r, c));
        let (winner, black, white) = b.count_scores();
        assert_eq!(black, 4);
        assert_eq!(white, 1);
        assert_eq!(winner, Some(Color::Black));
    }
}

#[test]
fn placement_count_accounting() {
    // One successful placement: mover +1 placed +1 flipped, opponent -1,
    // total +1.
    let mut b = Board::new();
    let (_, black0, white0) = b.count_scores();
    assert_eq!((black0, white0), (2, 2));
    assert!(b.attempt_place(Color::Black, 3, 4));
    let (_, black1, white1) = b.count_scores();
    assert_eq!(black1, black0 + 1 + 1);
    assert_eq!(white1, white0 - 1);
    assert_eq!(black1 + white1, black0 + white0 + 1);
}

#[test]
fn failed_attempt_leaves_grid_untouched() {
    // A blocked target fails with no mutation.
    let mut b = Board::new();
    let before = cells_of(&b);
    assert!(!b.attempt_place(Color::Black, 1, 1));
    assert_eq!(cells_of(&b), before);

    // A candidate cell without any capturable direction also fails with no
    // mutation: adjacency is not legality.
    let mut b = board_from([
        "........",
        "........",
        "........",
        "...B....",
        "........",
        "........",
        "........",
        "........",
    ]);
    b.validate_cells();
    assert_eq!(b.get_cell(4, 5), Cell::Candidate);
    let before = cells_of(&b);
    assert!(!b.can_place(Color::Black, 4, 5));
    assert!(!b.attempt_place(Color::Black, 4, 5));
    assert_eq!(cells_of(&b), before);
}

#[test]
fn candidate_flags_mark_exactly_neighbors() {
    // A single disc in the open: its eight neighbors become candidates,
    // everything else stays blocked and the disc is untouched.
    let mut b = board_from([
        "........",
        "........",
        "........",
        "...B....",
        "........",
        "........",
        "........",
        "........",
    ]);
    b.validate_cells();
    for r in 1..=8usize {
        for c in 1..=8usize {
            let expected = if (r, c) == (4, 4) {
                Cell::Disc(Color::Black)
            } else if (3..=5).contains(&r) && (3..=5).contains(&c) {
                Cell::Candidate
            } else {
                Cell::Blocked
            };
            assert_eq!(b.get_cell(r, c), expected, "cell ({}, {})", r, c);
        }
    }
}

#[test]
fn candidate_flags_at_corner() {
    // A corner disc has only three neighbors: no wraparound.
    let mut b = board_from([
        "W.......",
        "........",
        "........",
        "........",
        "........",
        "........",
        "........",
        "........",
    ]);
    b.validate_cells();
    for r in 1..=8usize {
        for c in 1..=8usize {
            let expected = if (r, c) == (1, 1) {
                Cell::Disc(Color::White)
            } else if r <= 2 && c <= 2 {
                Cell::Candidate
            } else {
                Cell::Blocked
            };
            assert_eq!(b.get_cell(r, c), expected, "cell ({}, {})", r, c);
        }
    }
}

#[test]
fn candidate_recomputation_idempotent() {
    let mut b = Board::new();
    b.validate_cells();
    let first = cells_of(&b);
    b.validate_cells();
    assert_eq!(cells_of(&b), first);
}

#[test]
fn multi_direction_capture() {
    // Placing at (4,4) closes a horizontal run ((4,5) toward (4,6)) and a
    // diagonal run ((5,5) toward (6,6)) at once; both must flip.
    let mut b = board_from([
        "........",
        "........",
        "........",
        "....WB..",
        "....W...",
        ".....B..",
        "........",
        "........",
    ]);
    b.validate_cells();
    assert!(b.attempt_place(Color::Black, 4, 4));
    assert_eq!(b.get_cell(4, 4), Cell::Disc(Color::Black));
    assert_eq!(b.get_cell(4, 5), Cell::Disc(Color::Black), "horizontal run flipped");
    assert_eq!(b.get_cell(5, 5), Cell::Disc(Color::Black), "diagonal run flipped");
    let (_, black, white) = b.count_scores();
    assert_eq!(black, 5);
    assert_eq!(white, 0);
}

#[test]
fn run_reaching_edge_is_abandoned() {
    // A run of opponent discs that hits the border without a terminating
    // disc of the mover's color contributes no capture.
    let mut b = board_from([
        ".WW.....",
        "........",
        "........",
        "........",
        "........",
        "........",
        "........",
        "........",
    ]);
    b.validate_cells();
    assert_eq!(b.get_cell(1, 4), Cell::Candidate);
    let before = cells_of(&b);
    assert!(!b.attempt_place(Color::Black, 1, 4));
    assert_eq!(cells_of(&b), before);
}

#[test]
fn score_tie() {
    let b = board_from([
        "BBB.....",
        "WWW.....",
        "........",
        "........",
        "........",
        "........",
        "........",
        "........",
    ]);
    let (winner, black, white) = b.count_scores();
    assert_eq!(winner, None);
    assert_eq!(black, 3);
    assert_eq!(white, 3);
}

#[test]
fn has_legal_move_scans_whole_grid() {
    let board = Board::new();
    assert!(board.has_legal_move(Color::Black));
    assert!(board.has_legal_move(Color::White));
    let mut lone = board_from([
        "........",
        "........",
        "........",
        "...B....",
        "........",
        "........",
        "........",
        "........",
    ]);
    lone.validate_cells();
    assert!(!lone.has_legal_move(Color::Black));
    assert!(!lone.has_legal_move(Color::White));
}
