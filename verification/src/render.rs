//! ASCII rendering of a board: a header line of file letters, then one line
//! per rank with a distinct glyph per player and a dot for an empty cell.
//! The grid of glyphs is the only externally observable visualization.

use vstd::prelude::*;

use crate::board::{cell, Board, Grid};
use crate::player::{Player, Position};

verus! {

/// The glyph drawn for a cell's occupant.
pub open spec fn glyph(c: Option<Player>) -> char {
    match c {
        Some(Player::Black) => 'X',
        Some(Player::White) => 'O',
        None => '.',
    }
}

/// The digit labelling rank `y`.
pub open spec fn rank_glyph(y: int) -> char {
    if y == 0 {
        '1'
    } else if y == 1 {
        '2'
    } else if y == 2 {
        '3'
    } else if y == 3 {
        '4'
    } else if y == 4 {
        '5'
    } else if y == 5 {
        '6'
    } else if y == 6 {
        '7'
    } else {
        '8'
    }
}

/// The glyphs of cells `x..8` of rank `y`, each followed by a space, then
/// the line break.
pub open spec fn render_cells(g: Grid, y: int, x: int) -> Seq<char>
    decreases 8 - x,
{
    if x >= 8 {
        seq!['\n']
    } else {
        seq![glyph(cell(g, x, y)), ' '] + render_cells(g, y, x + 1)
    }
}

/// The lines of ranks `y..8`, each led by its digit and a space.
pub open spec fn render_rows(g: Grid, y: int) -> Seq<char>
    decreases 8 - y,
{
    if y >= 8 {
        Seq::<char>::empty()
    } else {
        seq![rank_glyph(y), ' '] + render_cells(g, y, 0) + render_rows(g, y + 1)
    }
}

/// The full rendering: the file-letter header, then the eight rank lines.
pub open spec fn render_spec(g: Grid) -> Seq<char> {
    "  a b c d e f g h\n"@ + render_rows(g, 0)
}

/// Renders the board as text, one glyph per cell.
pub fn render_board(board: &Board) -> (r: String)
    ensures
        r@ == render_spec(board@),
{
    let mut s: String = "  a b c d e f g h\n".to_owned();
    let mut y: i8 = 0;
    while y < 8
        invariant
            0 <= y <= 8,
            s@ + render_rows(board@, y as int) =~= render_spec(board@),
        decreases 8 - y,
    {
        let rank: &str = match y {
            0 => "1 ",
            1 => "2 ",
            2 => "3 ",
            3 => "4 ",
            4 => "5 ",
            5 => "6 ",
            6 => "7 ",
            _ => "8 ",
        };
        proof {
            reveal_strlit("1 ");
            reveal_strlit("2 ");
            reveal_strlit("3 ");
            reveal_strlit("4 ");
            reveal_strlit("5 ");
            reveal_strlit("6 ");
            reveal_strlit("7 ");
            reveal_strlit("8 ");
            assert(rank@ =~= seq![rank_glyph(y as int), ' ']);
        }
        s = s.concat(rank);
        let mut x: i8 = 0;
        while x < 8
            invariant
                0 <= x <= 8,
                0 <= y < 8,
                s@ + render_cells(board@, y as int, x as int) + render_rows(board@, y as int + 1)
                    =~= render_spec(board@),
            decreases 8 - x,
        {
            let cell_str: &str = match board.player_at(Position { x, y }) {
                Some(Player::Black) => "X ",
                Some(Player::White) => "O ",
                None => ". ",
            };
            proof {
                reveal_strlit("X ");
                reveal_strlit("O ");
                reveal_strlit(". ");
                assert(cell_str@ =~= seq![glyph(cell(board@, x as int, y as int)), ' ']);
            }
            s = s.concat(cell_str);
            proof {
                assert(s@ + render_cells(board@, y as int, x as int + 1) + render_rows(
                    board@,
                    y as int + 1,
                ) =~= render_spec(board@));
            }
            x = x + 1;
        }
        s = s.concat("\n");
        proof {
            reveal_strlit("\n");
            assert(render_cells(board@, y as int, 8) =~= seq!['\n']);
            assert(s@ + render_rows(board@, y as int + 1) =~= render_spec(board@));
        }
        y = y + 1;
    }
    proof {
        assert(render_rows(board@, 8) =~= Seq::<char>::empty());
        assert(s@ =~= render_spec(board@));
    }
    s
}

} // verus!
