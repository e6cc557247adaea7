//! Textual move notation at the console boundary: a move is a file letter
//! 'a'..'h' and a rank digit '1'..'8' followed by a newline, mapping to
//! zero-based (x, y); the control tokens `pass`, `black`, `white` and `draw`
//! stand for the non-move protocol events.

use vstd::prelude::*;

use crate::player::{Player, Position};

verus! {

/// A parsed line of console input.
#[derive(Clone, Copy, Debug)]
pub enum Command {
    /// Place a disc at the given cell.
    PlayAt(Position),
    /// Voluntarily forfeit the turn.
    Pass,
    /// End the game: a winner, or `None` for a draw.
    Victory(Option<Player>),
}

/// Compares two strings character by character.
fn str_matches(s: &str, t: &str) -> (r: bool)
    ensures
        r == (s@ == t@),
{
    let ns = s.unicode_len();
    let nt = t.unicode_len();
    if ns != nt {
        return false;
    }
    let mut i: usize = 0;
    while i < ns
        invariant
            i <= ns,
            ns == s@.len(),
            ns == t@.len(),
            forall|j: int| 0 <= j < i ==> s@[j] == t@[j],
        decreases ns - i,
    {
        if s.get_char(i) != t.get_char(i) {
            return false;
        }
        i = i + 1;
    }
    proof {
        assert(s@ =~= t@);
    }
    true
}

impl Command {
    /// What `parse` returns on each input, over the input's characters.
    pub open spec fn parse_spec(s: Seq<char>) -> Result<Command, ()> {
        if s == "black\n"@ {
            Ok(Command::Victory(Some(Player::Black)))
        } else if s == "white\n"@ {
            Ok(Command::Victory(Some(Player::White)))
        } else if s == "draw\n"@ {
            Ok(Command::Victory(None))
        } else if s == "pass\n"@ {
            Ok(Command::Pass)
        } else if s.len() == 3 && s[2] == '\n' && 'a' <= s[0] <= 'h' && '1' <= s[1] <= '8' {
            Ok(
                Command::PlayAt(
                    Position {
                        x: (s[0] as int - 'a' as int) as i8,
                        y: (s[1] as int - '1' as int) as i8,
                    },
                ),
            )
        } else {
            Err(())
        }
    }

    /// Parses one line of input (newline included). Control tokens map to
    /// their commands; a well-formed cell in 'a'..'h' x '1'..'8' maps to a
    /// `PlayAt` with a valid position; anything else is rejected.
    pub fn parse(cmd: &str) -> (r: Result<Command, ()>)
        ensures
            r == Command::parse_spec(cmd@),
            r matches Ok(c) ==> (c matches Command::PlayAt(p) ==> p.valid()),
    {
        if str_matches(cmd, "black\n") {
            return Ok(Command::Victory(Some(Player::Black)));
        }
        if str_matches(cmd, "white\n") {
            return Ok(Command::Victory(Some(Player::White)));
        }
        if str_matches(cmd, "draw\n") {
            return Ok(Command::Victory(None));
        }
        if str_matches(cmd, "pass\n") {
            return Ok(Command::Pass);
        }
        if cmd.unicode_len() != 3 {
            return Err(());
        }
        let c0 = cmd.get_char(0);
        let c1 = cmd.get_char(1);
        let c2 = cmd.get_char(2);
        if c2 != '\n' {
            return Err(());
        }
        let f = c0 as u32;
        let k = c1 as u32;
        if f < 97 || f > 104 || k < 49 || k > 56 {
            return Err(());
        }
        let pos = Position { x: (f - 97) as i8, y: (k - 49) as i8 };
        Ok(Command::PlayAt(pos))
    }

    /// What `stringify` produces for each command: the three-character cell
    /// notation for a valid placement, or the matching control token.
    pub open spec fn stringify_spec(cmd: Command, s: Seq<char>) -> bool {
        match cmd {
            Command::PlayAt(p) => {
                if p.valid() {
                    s.len() == 3 && s[0] as int == 'a' as int + p.xi() && s[1] as int == '1' as int
                        + p.yi() && s[2] == '\n'
                } else {
                    s == "pass\n"@
                }
            },
            Command::Pass => s == "pass\n"@,
            Command::Victory(w) => match w {
                Some(Player::Black) => s == "black\n"@,
                Some(Player::White) => s == "white\n"@,
                None => s == "draw\n"@,
            },
        }
    }

    /// Formats a command for the console, newline included. An out-of-range
    /// placement is rendered as a pass.
    pub fn stringify(cmd: &Command) -> (r: String)
        ensures
            Command::stringify_spec(*cmd, r@),
    {
        match cmd {
            Command::PlayAt(pos) => {
                if !pos.is_valid() {
                    return pass_token();
                }
                let file: &str = match pos.x {
                    0 => "a",
                    1 => "b",
                    2 => "c",
                    3 => "d",
                    4 => "e",
                    5 => "f",
                    6 => "g",
                    _ => "h",
                };
                let rank: &str = match pos.y {
                    0 => "1",
                    1 => "2",
                    2 => "3",
                    3 => "4",
                    4 => "5",
                    5 => "6",
                    6 => "7",
                    _ => "8",
                };
                proof {
                    reveal_strlit("a");
                    reveal_strlit("b");
                    reveal_strlit("c");
                    reveal_strlit("d");
                    reveal_strlit("e");
                    reveal_strlit("f");
                    reveal_strlit("g");
                    reveal_strlit("h");
                    reveal_strlit("1");
                    reveal_strlit("2");
                    reveal_strlit("3");
                    reveal_strlit("4");
                    reveal_strlit("5");
                    reveal_strlit("6");
                    reveal_strlit("7");
                    reveal_strlit("8");
                    reveal_strlit("\n");
                    assert(file@.len() == 1 && file@[0] as int == 'a' as int + pos.xi());
                    assert(rank@.len() == 1 && rank@[0] as int == '1' as int + pos.yi());
                }
                let s = String::from_str(file).concat(rank).concat("\n");
                s
            },
            Command::Pass => pass_token(),
            Command::Victory(winner) => match winner {
                Some(Player::Black) => "black\n".to_owned(),
                Some(Player::White) => "white\n".to_owned(),
                None => "draw\n".to_owned(),
            },
        }
    }
}

fn pass_token() -> (r: String)
    ensures
        r@ == "pass\n"@,
{
    "pass\n".to_owned()
}

/// What `arg_to_player` returns for each colour-selector argument.
pub open spec fn arg_to_player_spec(s: Seq<char>) -> Result<Player, ()> {
    if s == "black"@ {
        Ok(Player::Black)
    } else if s == "white"@ {
        Ok(Player::White)
    } else {
        Err(())
    }
}

/// Maps a colour-selector argument to the side it names.
pub fn arg_to_player(arg: &str) -> (r: Result<Player, ()>)
    ensures
        r == arg_to_player_spec(arg@),
{
    if str_matches(arg, "black") {
        Ok(Player::Black)
    } else if str_matches(arg, "white") {
        Ok(Player::White)
    } else {
        Err(())
    }
}

} // verus!
