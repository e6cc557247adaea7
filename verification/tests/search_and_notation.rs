//! Tests for the negamax search, move selection, and the console notation.

use reversi::board::Board;
use reversi::notation::{arg_to_player, Command};
use reversi::player::{Player, Position};
use reversi::search::{negamax, negamax_ab, select_best_move};

fn pos(x: i8, y: i8) -> Position {
    Position { x, y }
}

#[test]
fn depth_zero_is_heuristic() {
    let b = Board::new();
    assert_eq!(negamax(&b, 0, Player::Black), 0);
    let mut b = Board::new();
    b.play_at(pos(2, 3), Player::Black);
    assert_eq!(negamax(&b, 0, Player::Black), 3);
    assert_eq!(negamax(&b, 0, Player::White), -3);
}

#[test]
fn one_ply_from_start_is_three() {
    // every opening move flips exactly one disc
    let b = Board::new();
    assert_eq!(negamax(&b, 1, Player::Black), 3);
    assert_eq!(negamax(&b, 1, Player::White), 3);
}

#[test]
fn pruned_and_full_windows_agree() {
    let b = Board::new();
    let full = negamax(&b, 3, Player::Black);
    assert_eq!(negamax_ab(&b, 3, -100, 100, Player::Black), full);
    assert_eq!(negamax_ab(&b, 3, -64, 64, Player::Black), full);
    let mut after = Board::new();
    after.play_at(pos(2, 3), Player::Black);
    let full = negamax(&after, 2, Player::White);
    assert_eq!(negamax_ab(&after, 2, -100, 100, Player::White), full);
}

#[test]
fn terminal_node_falls_back_to_heuristic() {
    // a board the opponent fully owns leaves no legal move at any depth
    let mut b = Board::new();
    for y in 0..8 {
        for x in 0..8 {
            b.set_cell(pos(x, y), Player::Black);
        }
    }
    assert_eq!(b.player_score(Player::Black), 64);
    assert_eq!(negamax(&b, 0, Player::White), -64);
    assert_eq!(negamax(&b, 3, Player::White), -64);
    assert_eq!(negamax(&b, 3, Player::Black), 64);
}

#[test]
fn select_best_move_picks_earliest_best() {
    // from the start all four Black openings score 3 at depth 1; the earliest
    // in row-major order is d3 = (3, 2)
    let b = Board::new();
    let chosen = select_best_move(&b, Player::Black, 1);
    match chosen {
        Some(p) => assert_eq!((p.x, p.y), (3, 2)),
        None => panic!("expected a legal move"),
    }
}

#[test]
fn select_best_move_none_on_forced_pass() {
    // no empty cell can capture on a board with a single colour
    let mut b = Board::new();
    for y in 0..8 {
        for x in 0..8 {
            b.set_cell(pos(x, y), Player::Black);
        }
    }
    assert!(select_best_move(&b, Player::White, 2).is_none());
    assert!(select_best_move(&b, Player::Black, 2).is_none());
    // and attempting a placement anyway changes nothing
    let before = b.clone();
    assert!(!b.play_at(pos(0, 0), Player::White));
    assert_eq!(b, before);
}

#[test]
fn parse_cells_and_tokens() {
    assert!(matches!(
        Command::parse("c4\n"),
        Ok(Command::PlayAt(Position { x: 2, y: 3 }))
    ));
    assert!(matches!(
        Command::parse("a1\n"),
        Ok(Command::PlayAt(Position { x: 0, y: 0 }))
    ));
    assert!(matches!(
        Command::parse("h8\n"),
        Ok(Command::PlayAt(Position { x: 7, y: 7 }))
    ));
    assert!(matches!(Command::parse("pass\n"), Ok(Command::Pass)));
    assert!(matches!(
        Command::parse("black\n"),
        Ok(Command::Victory(Some(Player::Black)))
    ));
    assert!(matches!(
        Command::parse("white\n"),
        Ok(Command::Victory(Some(Player::White)))
    ));
    assert!(matches!(Command::parse("draw\n"), Ok(Command::Victory(None))));
}

#[test]
fn parse_rejects_malformed_input() {
    assert!(Command::parse("i1\n").is_err());
    assert!(Command::parse("a9\n").is_err());
    assert!(Command::parse("a0\n").is_err());
    assert!(Command::parse("A1\n").is_err());
    assert!(Command::parse("c4").is_err());
    assert!(Command::parse("\n").is_err());
    assert!(Command::parse("").is_err());
    assert!(Command::parse("passing\n").is_err());
}

#[test]
fn stringify_matches_notation() {
    assert_eq!(Command::stringify(&Command::PlayAt(pos(2, 3))), "c4\n");
    assert_eq!(Command::stringify(&Command::PlayAt(pos(0, 0))), "a1\n");
    assert_eq!(Command::stringify(&Command::PlayAt(pos(7, 7))), "h8\n");
    assert_eq!(Command::stringify(&Command::Pass), "pass\n");
    assert_eq!(
        Command::stringify(&Command::Victory(Some(Player::Black))),
        "black\n"
    );
    assert_eq!(
        Command::stringify(&Command::Victory(Some(Player::White))),
        "white\n"
    );
    assert_eq!(Command::stringify(&Command::Victory(None)), "draw\n");
    // an out-of-range placement renders as a pass
    assert_eq!(Command::stringify(&Command::PlayAt(pos(8, 0))), "pass\n");
}

#[test]
fn notation_round_trips() {
    for y in 0..8 {
        for x in 0..8 {
            let s = Command::stringify(&Command::PlayAt(pos(x, y)));
            match Command::parse(&s) {
                Ok(Command::PlayAt(p)) => assert_eq!((p.x, p.y), (x, y)),
                _ => panic!("cell notation failed to round-trip"),
            }
        }
    }
}

#[test]
fn colour_arguments() {
    assert!(matches!(arg_to_player("black"), Ok(Player::Black)));
    assert!(matches!(arg_to_player("white"), Ok(Player::White)));
    assert!(arg_to_player("green").is_err());
    assert!(arg_to_player("black\n").is_err());
    assert!(arg_to_player("").is_err());
}

#[test]
fn players_and_glyphs() {
    assert_eq!(Player::Black.opponent(), Player::White);
    assert_eq!(Player::White.opponent(), Player::Black);
    assert_eq!(Player::Black.to_char(), 'X');
    assert_eq!(Player::White.to_char(), 'O');
}
