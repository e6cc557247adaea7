//! Scenario tests for the board engine: the standard start, capture
//! application, rejection of illegal moves, and disc conservation.

use reversi::board::Board;
use reversi::player::{Direction, Player, Position};

fn pos(x: i8, y: i8) -> Position {
    Position { x, y }
}

#[test]
fn start_layout_and_first_capture() {
    // the standard start: Black at d5 and e4, White at d4 and e5; playing
    // Black at c4 captures d4 along (+1, 0)
    let mut b = Board::new();
    assert_eq!(b.player_at(pos(3, 4)), Some(Player::Black)); // d5
    assert_eq!(b.player_at(pos(4, 3)), Some(Player::Black)); // e4
    assert_eq!(b.player_at(pos(3, 3)), Some(Player::White)); // d4
    assert_eq!(b.player_at(pos(4, 4)), Some(Player::White)); // e5
    assert_eq!(b.player_at(pos(0, 0)), None);
    assert_eq!(b.player_score(Player::Black), 2);
    assert_eq!(b.player_score(Player::White), 2);
    assert_eq!(b.heuristic(Player::Black), 0);
    assert_eq!(b.heuristic(Player::White), 0);

    let legal = b.play_at(pos(2, 3), Player::Black); // c4
    assert!(legal);
    assert_eq!(b.player_at(pos(2, 3)), Some(Player::Black));
    assert_eq!(b.player_at(pos(3, 3)), Some(Player::Black)); // d4 flipped
    assert_eq!(b.player_at(pos(4, 3)), Some(Player::Black)); // e4 kept
    assert_eq!(b.player_score(Player::Black), 4);
    assert_eq!(b.player_score(Player::White), 1);
    assert_eq!(b.heuristic(Player::Black), 3);
}

#[test]
fn occupied_cell_is_rejected_unchanged() {
    // playing on an already-occupied cell (d5) fails for every direction and
    // leaves the board bit-for-bit unchanged
    let mut b = Board::new();
    let before = b.clone();
    let legal = b.play_at(pos(3, 4), Player::Black);
    assert!(!legal);
    assert_eq!(b, before);
    let legal = b.play_at(pos(3, 4), Player::White);
    assert!(!legal);
    assert_eq!(b, before);
}

#[test]
fn isolated_placement_is_rejected() {
    // an empty cell with no adjacent opponent run captures nothing
    let mut b = Board::new();
    let before = b.clone();
    assert!(!b.play_at(pos(0, 0), Player::Black));
    assert_eq!(b, before);
    // adjacent to an opponent disc but with no closing disc behind it
    assert!(!b.play_at(pos(2, 2), Player::White));
    assert_eq!(b, before);
}

#[test]
fn conservation_on_moves() {
    // a successful move adds exactly one disc in total; a rejected one none
    let mut b = Board::new();
    let total = b.player_score(Player::Black) + b.player_score(Player::White);
    assert_eq!(total, 4);
    assert!(b.play_at(pos(2, 3), Player::Black));
    let total = b.player_score(Player::Black) + b.player_score(Player::White);
    assert_eq!(total, 5);
    assert!(!b.play_at(pos(0, 7), Player::White));
    let total = b.player_score(Player::Black) + b.player_score(Player::White);
    assert_eq!(total, 5);
}

#[test]
fn capture_flips_whole_run_and_nothing_beyond() {
    // build a row  B W W . W B  on rank 1 and play Black in the gap: the two
    // discs left of the gap flip, the single disc right of it flips too, and
    // nothing beyond either closing disc changes
    let mut b = Board::new();
    b.set_cell(pos(0, 0), Player::Black);
    b.set_cell(pos(1, 0), Player::White);
    b.set_cell(pos(2, 0), Player::White);
    b.set_cell(pos(4, 0), Player::White);
    b.set_cell(pos(5, 0), Player::Black);
    b.set_cell(pos(7, 0), Player::White);
    assert!(b.play_at(pos(3, 0), Player::Black));
    for x in 0..6 {
        assert_eq!(b.player_at(pos(x, 0)), Some(Player::Black));
    }
    assert_eq!(b.player_at(pos(6, 0)), None); // beyond the closing disc
    assert_eq!(b.player_at(pos(7, 0)), Some(Player::White)); // untouched
}

#[test]
fn single_adjacent_opponent_without_closure_is_no_capture() {
    // a lone opponent disc next to the origin with no own disc behind it
    let mut b = Board::new();
    b.set_cell(pos(0, 0), Player::White);
    let before = b.clone();
    assert!(!b.play_at(pos(1, 0), Player::Black));
    assert_eq!(b, before);
}

#[test]
fn find_bridge_reports_run_and_terminal() {
    let b = Board::new();
    // from c4 along (+1, 0): d4 (White) then e4 (Black) closes the line
    let bridge = b.find_bridge_candidate(
        pos(2, 3),
        Direction { dx: 1, dy: 0 },
        Player::Black,
        false,
    );
    assert_eq!(bridge.len(), 2);
    assert_eq!((bridge[0].x, bridge[0].y), (3, 3));
    assert_eq!((bridge[1].x, bridge[1].y), (4, 3));
    // no capture along (0, +1) from c4
    let none = b.find_bridge_candidate(
        pos(2, 3),
        Direction { dx: 0, dy: 1 },
        Player::Black,
        false,
    );
    assert_eq!(none.len(), 0);
}

#[test]
fn heuristic_symmetry_on_samples() {
    let mut b = Board::new();
    assert_eq!(b.heuristic(Player::Black), -b.heuristic(Player::White));
    b.play_at(pos(2, 3), Player::Black);
    assert_eq!(b.heuristic(Player::Black), -b.heuristic(Player::White));
    b.play_at(pos(2, 2), Player::White);
    assert_eq!(b.heuristic(Player::Black), -b.heuristic(Player::White));
}

#[test]
fn saturating_coordinates_stay_out_of_range() {
    let p = Position { x: 127, y: 0 };
    let q = p.neighbor(Direction { dx: 1, dy: -1 });
    assert_eq!((q.x, q.y), (127, -1));
    assert!(!q.is_valid());
    let p = Position { x: -128, y: 7 };
    let q = p.neighbor(Direction { dx: -1, dy: 1 });
    assert_eq!((q.x, q.y), (-128, 8));
    assert!(!q.is_valid());
    assert!(Position { x: 0, y: 0 }.is_valid());
    assert!(!Position { x: 8, y: 0 }.is_valid());
}

#[test]
fn rendering_of_the_start_position() {
    let b = reversi::render::render_board(&Board::new());
    let expected = "  a b c d e f g h\n1 . . . . . . . . \n2 . . . . . . . . \n3 . . . . . . . . \n4 . . . O X . . . \n5 . . . X O . . . \n6 . . . . . . . . \n7 . . . . . . . . \n8 . . . . . . . . \n";
    assert_eq!(b, expected);
}
