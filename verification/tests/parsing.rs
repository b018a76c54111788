//! Tests of the input-line parser.

use reversi::game::{parse_move, Move};

fn chars_of(s: &str) -> Vec<char> {
    s.chars().collect()
}

#[test]
fn parses_placements() {
    // A column digit followed by a row letter: '3d' is row 4, column 3.
    assert_eq!(parse_move(&chars_of("3d")), Some(Move::Play(4, 3)));
    assert_eq!(parse_move(&chars_of("1a")), Some(Move::Play(1, 1)));
    assert_eq!(parse_move(&chars_of("8h")), Some(Move::Play(8, 8)));
    // Upper-case row letters are accepted too.
    assert_eq!(parse_move(&chars_of("3D")), Some(Move::Play(4, 3)));
}

#[test]
fn parses_pass_and_resign() {
    assert_eq!(parse_move(&chars_of("p")), Some(Move::Pass));
    assert_eq!(parse_move(&chars_of("r")), Some(Move::Resign));
}

#[test]
fn rejects_malformed_input() {
    assert_eq!(parse_move(&chars_of("")), None);
    assert_eq!(parse_move(&chars_of("9a")), None);
    assert_eq!(parse_move(&chars_of("0a")), None);
    assert_eq!(parse_move(&chars_of("3i")), None);
    assert_eq!(parse_move(&chars_of("a3")), None);
    assert_eq!(parse_move(&chars_of("33")), None);
    assert_eq!(parse_move(&chars_of("x")), None);
    assert_eq!(parse_move(&chars_of("3d4")), None);
}
