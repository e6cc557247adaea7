//! Depth-limited adversarial search: recursive negamax with alpha-beta
//! pruning over board copies, proved to return exactly the unpruned game
//! value whenever the window does not clip it.

use vstd::prelude::*;

use crate::board::{
    grid_wf, heur, is_legal, lemma_conservation, lemma_total_bound, play, Board, Grid,
};
use crate::player::{Player, Position};

verus! {

/// The column of row-major cell index `i`.
pub open spec fn cell_x_of(i: int) -> int {
    i % 8
}

/// The row of row-major cell index `i`.
pub open spec fn cell_y_of(i: int) -> int {
    i / 8
}

/// A sentinel strictly below every reachable position value.
pub open spec fn min_score() -> int {
    -0x8000_0000
}

/// Whether cell `i` (row-major: x = i % 8, y = i / 8) is a legal move.
pub open spec fn legal_at(g: Grid, pl: Player, i: int) -> bool {
    is_legal(g, cell_x_of(i), cell_y_of(i), pl)
}

/// The position after playing cell `i`.
pub open spec fn child_grid(g: Grid, pl: Player, i: int) -> Grid {
    play(g, cell_x_of(i), cell_y_of(i), pl).0
}

/// Some cell in `i..64` is a legal move for `pl`.
pub open spec fn has_move_from(g: Grid, pl: Player, i: int) -> bool
    decreases 64 - i,
{
    if i >= 64 {
        false
    } else {
        legal_at(g, pl, i) || has_move_from(g, pl, i + 1)
    }
}

/// Some cell is a legal move for `pl`.
pub open spec fn has_move(g: Grid, pl: Player) -> bool {
    has_move_from(g, pl, 0)
}

/// What playing cell `i` is worth to the player to move: the negation of the
/// resulting position's value for the opponent, one ply shallower.
pub open spec fn move_worth(g: Grid, depth: nat, pl: Player, i: int) -> int
    decreases depth, 0int, 0int,
{
    if depth == 0 {
        0
    } else {
        -game_value(child_grid(g, pl, i), (depth - 1) as nat, pl.opp())
    }
}

/// The best worth over legal cells in `i..64`, or the sentinel if none.
pub open spec fn best_from(g: Grid, depth: nat, pl: Player, i: int) -> int
    decreases depth, 1int, 64 - i,
{
    if i >= 64 || depth == 0 {
        min_score()
    } else {
        let rest = best_from(g, depth, pl, i + 1);
        if legal_at(g, pl, i) {
            let v = move_worth(g, depth, pl, i);
            if v >= rest {
                v
            } else {
                rest
            }
        } else {
            rest
        }
    }
}

/// The value of a position for the player to move: the heuristic at depth 0
/// or when no move exists (a terminal or pass-forced node), else the best
/// achievable over all legal moves under optimal opposing play.
pub open spec fn game_value(g: Grid, depth: nat, pl: Player) -> int
    decreases depth, 2int, 0int,
{
    if depth == 0 || !has_move(g, pl) {
        heur(g, pl)
    } else {
        best_from(g, depth, pl, 0)
    }
}

/// Terminal fallback: a position with no legal move is worth its heuristic,
/// at every depth, exactly as at a depth-0 leaf.
pub proof fn lemma_terminal_value(g: Grid, depth: nat, pl: Player)
    requires
        !has_move(g, pl),
    ensures
        game_value(g, depth, pl) == heur(g, pl),
{
}

/// Position values stay within the disc-differential range.
pub proof fn lemma_value_bounds(g: Grid, depth: nat, pl: Player)
    requires
        grid_wf(g),
    ensures
        -64 <= game_value(g, depth, pl) <= 64,
    decreases depth, 2int, 0int,
{
    lemma_total_bound(g, pl);
    lemma_total_bound(g, pl.opp());
    if depth > 0 && has_move(g, pl) {
        lemma_best_bounds(g, depth, pl, 0);
    }
}

proof fn lemma_best_bounds(g: Grid, depth: nat, pl: Player, i: int)
    requires
        grid_wf(g),
        0 <= i <= 64,
        depth >= 1,
    ensures
        has_move_from(g, pl, i) ==> -64 <= best_from(g, depth, pl, i) <= 64,
        !has_move_from(g, pl, i) ==> best_from(g, depth, pl, i) == min_score(),
        min_score() <= best_from(g, depth, pl, i) <= 64,
    decreases depth, 1int, 64 - i,
{
    if i < 64 {
        lemma_best_bounds(g, depth, pl, i + 1);
        if legal_at(g, pl, i) {
            lemma_conservation(g, cell_x_of(i), cell_y_of(i), pl);
            assert(grid_wf(child_grid(g, pl, i)));
            lemma_value_bounds(child_grid(g, pl, i), (depth - 1) as nat, pl.opp());
            assert(-64 <= move_worth(g, depth, pl, i) <= 64);
            assert(has_move_from(g, pl, i));
            assert(best_from(g, depth, pl, i) == if move_worth(g, depth, pl, i) >= best_from(
                g,
                depth,
                pl,
                i + 1,
            ) {
                move_worth(g, depth, pl, i)
            } else {
                best_from(g, depth, pl, i + 1)
            });
        } else {
            assert(best_from(g, depth, pl, i) == best_from(g, depth, pl, i + 1));
            assert(has_move_from(g, pl, i) == has_move_from(g, pl, i + 1));
        }
    }
}

/// Every legal cell's worth is bounded by the best over its range.
proof fn lemma_contrib_le(g: Grid, depth: nat, pl: Player, i: int, j: int)
    requires
        0 <= i <= j < 64,
        legal_at(g, pl, j),
        depth >= 1,
    ensures
        best_from(g, depth, pl, i) >= move_worth(g, depth, pl, j),
    decreases j - i,
{
    if i < j {
        lemma_contrib_le(g, depth, pl, i + 1, j);
    }
}

/// If every legal cell's worth is at most `s`, so is the best.
proof fn lemma_best_le(g: Grid, depth: nat, pl: Player, i: int, s: int)
    requires
        0 <= i <= 64,
        depth >= 1,
        min_score() <= s,
        forall|j: int|
            i <= j < 64 && #[trigger] legal_at(g, pl, j) ==> move_worth(g, depth, pl, j) <= s,
    ensures
        best_from(g, depth, pl, i) <= s,
    decreases 64 - i,
{
    if i < 64 {
        lemma_best_le(g, depth, pl, i + 1, s);
    }
}

proof fn lemma_legal_has_move(g: Grid, pl: Player, i: int, j: int)
    requires
        0 <= i <= j < 64,
        legal_at(g, pl, j),
    ensures
        has_move_from(g, pl, i),
    decreases j - i,
{
    if i < j {
        lemma_legal_has_move(g, pl, i + 1, j);
    }
}

proof fn lemma_no_moves(g: Grid, pl: Player, i: int)
    requires
        0 <= i <= 64,
        forall|j: int| i <= j < 64 ==> !(#[trigger] legal_at(g, pl, j)),
    ensures
        !has_move_from(g, pl, i),
    decreases 64 - i,
{
    if i < 64 {
        lemma_no_moves(g, pl, i + 1);
    }
}

/// Negamax with alpha-beta pruning and fail-soft bounds. The contract is the
/// alpha-beta correctness property: whenever the returned score lies strictly
/// inside the caller's window it equals the unpruned `game_value`, and a
/// score at or outside a bound is a sound bound on the value in that
/// direction, so pruning never changes the value reported through an
/// unclipped window.
pub fn negamax_ab(board: &Board, depth: usize, alpha: i64, beta: i64, player: Player) -> (r: i64)
    requires
        board.wf(),
        -0x8000_0000 <= alpha as int,
        alpha < beta,
        beta as int <= 0x8000_0000,
    ensures
        min_score() <= r as int <= 0x8000_0000,
        alpha < r < beta ==> r as int == game_value(board@, depth as nat, player),
        r <= alpha ==> game_value(board@, depth as nat, player) <= r as int,
        r >= beta ==> game_value(board@, depth as nat, player) >= r as int,
    decreases depth,
{
    proof {
        board.lemma_view_wf();
    }
    if depth == 0 {
        let h = board.heuristic(player);
        return h;
    }
    let ghost g0 = board@;
    let ghost alpha0 = alpha as int;
    let ghost dn = depth as nat;
    let mut alpha = alpha;
    let mut terminal_node: bool = true;
    let mut score: i64 = -0x8000_0000;
    let mut i: usize = 0;
    loop
        invariant_except_break
            board.wf(),
            g0 == board@,
            grid_wf(g0),
            depth >= 1,
            dn == depth as nat,
            i <= 64,
            min_score() <= alpha0,
            alpha0 < beta as int,
            beta as int <= 0x8000_0000,
            alpha as int == if score as int > alpha0 {
                score as int
            } else {
                alpha0
            },
            min_score() <= score as int <= 0x8000_0000,
            (score as int) < beta as int,
            terminal_node ==> score as int == min_score(),
            terminal_node <==> (forall|j: int| 0 <= j < i ==> !(#[trigger] legal_at(g0, player, j))),
            forall|j: int|
                0 <= j < i && #[trigger] legal_at(g0, player, j) ==> move_worth(g0, dn, player, j)
                    <= score as int,
            score as int > alpha0 ==> exists|j: int|
                0 <= j < 64 && #[trigger] legal_at(g0, player, j) && move_worth(g0, dn, player, j)
                    == score as int,
        ensures
            board.wf(),
            g0 == board@,
            depth >= 1,
            min_score() <= score as int <= 0x8000_0000,
            terminal_node ==> !has_move(g0, player),
            !terminal_node ==> has_move(g0, player),
            !terminal_node && score >= beta ==> game_value(g0, dn, player) >= score as int,
            !terminal_node && score < beta ==> game_value(g0, dn, player) <= score as int && (
            score as int > alpha0 ==> score as int == game_value(g0, dn, player)),
        decreases 65 - i,
    {
        if i >= 64 {
            proof {
                if terminal_node {
                    lemma_no_moves(g0, player, 0);
                } else {
                    let jw = choose|j: int| 0 <= j < i && #[trigger] legal_at(g0, player, j);
                    lemma_legal_has_move(g0, player, 0, jw);
                    assert(game_value(g0, dn, player) == best_from(g0, dn, player, 0));
                    lemma_best_le(g0, dn, player, 0, score as int);
                    if score as int > alpha0 {
                        let je = choose|j: int|
                            0 <= j < 64 && #[trigger] legal_at(g0, player, j) && move_worth(
                                g0,
                                dn,
                                player,
                                j,
                            ) == score as int;
                        lemma_contrib_le(g0, dn, player, 0, je);
                    }
                }
            }
            break ;
        }
        let x = (i % 8) as i8;
        let y = (i / 8) as i8;
        let mut child = *board;
        let legal = child.play_at(Position { x, y }, player);
        proof {
            assert(x as int == cell_x_of(i as int) && y as int == cell_y_of(i as int));
            assert(legal == legal_at(g0, player, i as int));
        }
        if legal {
            terminal_node = false;
            let rc = negamax_ab(&child, depth - 1, -beta, -alpha, player.opponent());
            let sc = -rc;
            let ghost w = move_worth(g0, dn, player, i as int);
            proof {
                let vc = game_value(child@, (depth - 1) as nat, player.opp());
                assert(w == -vc);
                if -beta < rc < -alpha {
                    assert(sc as int == w);
                } else if rc <= -beta {
                    assert(vc <= rc as int);
                    assert(w >= sc as int && sc >= beta);
                } else {
                    assert(rc >= -alpha);
                    assert(vc >= rc as int);
                    assert(w <= sc as int && sc <= alpha);
                }
            }
            if sc > score {
                score = sc;
            }
            if score > alpha {
                alpha = score;
            }
            if alpha >= beta {
                proof {
                    // a cutoff: the last child already meets or beats beta,
                    // so the true value is at least the returned score
                    assert(score == sc);
                    assert(w >= score as int);
                    lemma_contrib_le(g0, dn, player, 0, i as int);
                    lemma_legal_has_move(g0, player, 0, i as int);
                    assert(game_value(g0, dn, player) == best_from(g0, dn, player, 0));
                    assert(game_value(g0, dn, player) >= score as int);
                }
                break ;
            }
        }
        i = i + 1;
    }
    if terminal_node {
        proof {
            lemma_terminal_value(g0, dn, player);
        }
        let h = board.heuristic(player);
        return h;
    }
    score
}

/// Full-window negamax: returns exactly the unpruned game value.
pub fn negamax(board: &Board, depth: usize, player: Player) -> (r: i64)
    requires
        board.wf(),
    ensures
        r as int == game_value(board@, depth as nat, player),
{
    proof {
        board.lemma_view_wf();
        lemma_value_bounds(board@, depth as nat, player);
    }
    negamax_ab(board, depth, -2147483648i64, 2147483647i64, player)
}

/// What playing cell `i` and then scoring the result at `depth` from the
/// mover's own perspective is worth (the selection criterion).
pub open spec fn choice_worth(g: Grid, depth: nat, pl: Player, i: int) -> int {
    game_value(child_grid(g, pl, i), depth, pl)
}

/// Picks the legal move with the strictly greatest full-window search score,
/// scanning cells in row-major order (earliest cell wins ties). Returns
/// `None` exactly when the side to move has no legal move (a forced pass).
pub fn select_best_move(board: &Board, player: Player, depth: usize) -> (r: Option<Position>)
    requires
        board.wf(),
    ensures
        r is None <==> !has_move(board@, player),
        r matches Some(p) ==> {
            let bi = p.yi() * 8 + p.xi();
            &&& p.valid()
            &&& legal_at(board@, player, bi)
            &&& forall|j: int|
                0 <= j < 64 && #[trigger] legal_at(board@, player, j) ==> choice_worth(
                    board@,
                    depth as nat,
                    player,
                    j,
                ) <= choice_worth(board@, depth as nat, player, bi)
            &&& forall|j: int|
                0 <= j < bi && #[trigger] legal_at(board@, player, j) ==> choice_worth(
                    board@,
                    depth as nat,
                    player,
                    j,
                ) < choice_worth(board@, depth as nat, player, bi)
        },
{
    let ghost g0 = board@;
    let ghost dn = depth as nat;
    let mut best_score: i64 = -0x8000_0000;
    let mut best_play: Option<Position> = None;
    let mut i: usize = 0;
    while i < 64
        invariant
            board.wf(),
            g0 == board@,
            dn == depth as nat,
            i <= 64,
            best_play is None <==> (forall|j: int|
                0 <= j < i ==> !(#[trigger] legal_at(g0, player, j))),
            best_play is None ==> best_score as int == min_score(),
            best_play matches Some(p) ==> {
                let bi = p.yi() * 8 + p.xi();
                &&& p.valid()
                &&& 0 <= bi < i
                &&& legal_at(g0, player, bi)
                &&& best_score as int == choice_worth(g0, dn, player, bi)
                &&& -64 <= best_score as int <= 64
                &&& forall|j: int|
                    0 <= j < i && #[trigger] legal_at(g0, player, j) ==> choice_worth(
                        g0,
                        dn,
                        player,
                        j,
                    ) <= best_score as int
                &&& forall|j: int|
                    0 <= j < bi && #[trigger] legal_at(g0, player, j) ==> choice_worth(
                        g0,
                        dn,
                        player,
                        j,
                    ) < best_score as int
            },
        decreases 64 - i,
    {
        let x = (i % 8) as i8;
        let y = (i / 8) as i8;
        let position = Position { x, y };
        let mut copy = *board;
        let legal = copy.play_at(position, player);
        proof {
            assert(x as int == cell_x_of(i as int) && y as int == cell_y_of(i as int));
            assert(legal == legal_at(g0, player, i as int));
            assert(position.yi() * 8 + position.xi() == i as int);
        }
        if legal {
            let s = negamax(&copy, depth, player);
            proof {
                copy.lemma_view_wf();
                lemma_value_bounds(copy@, dn, player);
                assert(s as int == choice_worth(g0, dn, player, i as int));
            }
            if s > best_score {
                best_score = s;
                best_play = Some(position);
            }
        }
        i = i + 1;
    }
    proof {
        if best_play is None {
            lemma_no_moves(g0, player, 0);
        } else {
            let p = best_play->0;
            let bi = p.yi() * 8 + p.xi();
            lemma_legal_has_move(g0, player, 0, bi);
        }
    }
    best_play
}

} // verus!
