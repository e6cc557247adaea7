//! The 8x8 board: a pair of per-player row bitmasks, modelled in
//! specifications as a grid of `Option<Player>` cells, together with the
//! line-capture scanner and the mutating move operation.

use vstd::prelude::*;

use crate::player::{sat_add, Direction, Player, Position};

verus! {

/// The mathematical model of a board: 8 rows of 8 cells, each cell empty or
/// owned by one player. A cell holds a single `Option<Player>`, so a grid can
/// never show two occupants for one cell.
pub type Grid = Seq<Seq<Option<Player>>>;

/// The grid has 8 rows of 8 cells.
pub open spec fn grid_wf(g: Grid) -> bool {
    &&& g.len() == 8
    &&& forall|y: int| 0 <= y < 8 ==> (#[trigger] g[y]).len() == 8
}

/// Both coordinates lie on the board.
pub open spec fn in_range(x: int, y: int) -> bool {
    &&& 0 <= x < 8
    &&& 0 <= y < 8
}

/// The occupant of cell (x, y).
pub open spec fn cell(g: Grid, x: int, y: int) -> Option<Player> {
    g[y][x]
}

/// The grid with cell (x, y) set to `p` (any previous occupant is replaced).
pub open spec fn put(g: Grid, x: int, y: int, p: Player) -> Grid {
    g.update(y, g[y].update(x, Some(p)))
}

/// `put` changes exactly one cell and keeps the grid's shape.
pub proof fn lemma_cell_put(g: Grid, x: int, y: int, p: Player, x2: int, y2: int)
    requires
        grid_wf(g),
        in_range(x, y),
        in_range(x2, y2),
    ensures
        cell(put(g, x, y, p), x2, y2) == if x2 == x && y2 == y {
            Some(p)
        } else {
            cell(g, x2, y2)
        },
        grid_wf(put(g, x, y, p)),
{
}

/// The empty grid.
pub open spec fn empty_grid() -> Grid {
    Seq::new(8, |y: int| Seq::new(8, |x: int| None::<Player>))
}

/// The standard starting layout: two discs per player in the centre block.
/// In (file, rank) notation these are Black at e4 and d5, White at d4 and e5.
pub open spec fn start_grid() -> Grid {
    put(
        put(put(put(empty_grid(), 4, 3, Player::Black), 3, 4, Player::Black), 3, 3, Player::White),
        4,
        4,
        Player::White,
    )
}

/// Whether bit `i` of a row mask is set.
pub open spec fn bit(row: u8, i: u8) -> bool {
    row & (1u8 << i) != 0
}

spec fn cell_of(black_row: u8, white_row: u8, i: u8) -> Option<Player> {
    if bit(black_row, i) {
        Some(Player::Black)
    } else if bit(white_row, i) {
        Some(Player::White)
    } else {
        None
    }
}

proof fn lemma_bit_update(r: u8, i: u8, j: u8)
    by (bit_vector)
    requires
        i < 8,
        j < 8,
    ensures
        bit(r | (1u8 << i), j) == if j == i {
            true
        } else {
            bit(r, j)
        },
        bit(r & !(1u8 << i), j) == if j == i {
            false
        } else {
            bit(r, j)
        },
{
}

/// An 8x8 two-player occupancy board, one 8-bit row mask per row per player.
#[derive(Clone, Copy, Debug, PartialEq, Eq)]
pub struct Board {
    black: [u8; 8],
    white: [u8; 8],
}

impl View for Board {
    type V = Grid;

    closed spec fn view(&self) -> Grid {
        Seq::new(
            8,
            |y: int| Seq::new(8, |x: int| cell_of(self.black[y], self.white[y], x as u8)),
        )
    }
}

impl Board {
    /// The representation invariant: no cell is claimed by both row masks.
    /// Every board reachable through `new` and `play_at` satisfies it, which
    /// is the occupancy-exclusivity property at the bit level; the grid model
    /// itself can never show two occupants for one cell.
    pub closed spec fn wf(self) -> bool {
        forall|x: u8, y: int|
            x < 8 && 0 <= y < 8 ==> !(#[trigger] bit(self.black[y], x) && #[trigger] bit(
                self.white[y],
                x,
            ))
    }

    /// A board's grid always has the right shape.
    pub proof fn lemma_view_wf(self)
        ensures
            grid_wf(self@),
    {
    }

    /// The standard starting position.
    pub fn new() -> (b: Board)
        ensures
            b.wf(),
            b@ == start_grid(),
    {
        let b = Board {
            black: [0, 0, 0, 0b00010000, 0b00001000, 0, 0, 0],
            white: [0, 0, 0, 0b00001000, 0b00010000, 0, 0, 0],
        };
        proof {
            assert(forall|j: u8| j < 8 ==> !bit(0u8, j)) by (bit_vector);
            assert(forall|j: u8| j < 8 ==> (bit(0b00010000u8, j) <==> j == 4)) by (bit_vector);
            assert(forall|j: u8| j < 8 ==> (bit(0b00001000u8, j) <==> j == 3)) by (bit_vector);
            assert forall|x: int, y: int| in_range(x, y) implies cell(b@, x, y) == cell(
                start_grid(),
                x,
                y,
            ) by {
                lemma_cell_put(empty_grid(), 4, 3, Player::Black, x, y);
                lemma_cell_put(put(empty_grid(), 4, 3, Player::Black), 3, 4, Player::Black, x, y);
                lemma_cell_put(
                    put(put(empty_grid(), 4, 3, Player::Black), 3, 4, Player::Black),
                    3,
                    3,
                    Player::White,
                    x,
                    y,
                );
                lemma_cell_put(
                    put(
                        put(put(empty_grid(), 4, 3, Player::Black), 3, 4, Player::Black),
                        3,
                        3,
                        Player::White,
                    ),
                    4,
                    4,
                    Player::White,
                    x,
                    y,
                );
            }
            assert forall|y: int| 0 <= y < 8 implies b@[y] =~= start_grid()[y] by {
                assert(forall|x: int| 0 <= x < 8 ==> b@[y][x] == cell(b@, x, y));
                assert(forall|x: int| 0 <= x < 8 ==> start_grid()[y][x] == cell(start_grid(), x, y));
            }
            assert(b@ =~~= start_grid());
        }
        b
    }

    /// The occupant of an in-range cell: O(1) bit test.
    pub fn player_at(&self, pos: Position) -> (r: Option<Player>)
        requires
            pos.valid(),
        ensures
            r == cell(self@, pos.xi(), pos.yi()),
    {
        let mask: u8 = 1u8 << (pos.x as u8);
        if self.black[pos.y as usize] & mask != 0 {
            Some(Player::Black)
        } else if self.white[pos.y as usize] & mask != 0 {
            Some(Player::White)
        } else {
            None
        }
    }

    /// Marks an in-range cell as owned by `player`, clearing any opponent
    /// disc there.
    pub fn set_cell(&mut self, p: Position, player: Player)
        requires
            p.valid(),
            old(self).wf(),
        ensures
            final (self).wf(),
            final (self)@ == put(old(self)@, p.xi(), p.yi(), player),
    {
        let y = p.y as usize;
        let mask: u8 = 1u8 << (p.x as u8);
        match player {
            Player::Black => {
                let nb = self.black[y] | mask;
                let nw = self.white[y] & !mask;
                self.black[y] = nb;
                self.white[y] = nw;
            },
            Player::White => {
                let nw = self.white[y] | mask;
                let nb = self.black[y] & !mask;
                self.white[y] = nw;
                self.black[y] = nb;
            },
        }
        proof {
            let g1 = old(self)@;
            let xi = p.xi();
            let yi = p.yi();
            assert forall|x2: u8, y2: int| x2 < 8 && 0 <= y2 < 8 implies {
                &&& !(bit(self.black[y2], x2) && bit(self.white[y2], x2))
                &&& cell_of(self.black[y2], self.white[y2], x2) == (if x2 as int == xi && y2 == yi {
                    Some(player)
                } else {
                    cell_of(old(self).black[y2], old(self).white[y2], x2)
                })
            } by {
                if y2 == yi {
                    lemma_bit_update(old(self).black[y2], p.x as u8, x2);
                    lemma_bit_update(old(self).white[y2], p.x as u8, x2);
                }
            }
            assert forall|y2: int| 0 <= y2 < 8 implies self@[y2] =~= put(g1, xi, yi, player)[y2] by {
                lemma_cell_put(g1, xi, yi, player, 0, y2);
                assert forall|x2: int| 0 <= x2 < 8 implies self@[y2][x2] == put(
                    g1,
                    xi,
                    yi,
                    player,
                )[y2][x2] by {
                    lemma_cell_put(g1, xi, yi, player, x2, y2);
                }
            }
            assert(self@ =~~= put(g1, xi, yi, player));
        }
    }
    /// The number of `player`'s discs on the board.
    pub fn player_score(&self, player: Player) -> (r: i64)
        requires
            self.wf(),
        ensures
            r == score(self@, player),
            0 <= r <= 64,
    {
        let mut count: i64 = 0;
        let mut y: usize = 0;
        while y < 8
            invariant
                self.wf(),
                y <= 8,
                count == grid_count(self@, player, y as int),
                0 <= count <= 8 * y,
            decreases 8 - y,
        {
            let mut x: usize = 0;
            while x < 8
                invariant
                    self.wf(),
                    y < 8,
                    x <= 8,
                    count == grid_count(self@, player, y as int) + row_count(
                        self@[y as int],
                        player,
                        x as int,
                    ),
                    0 <= count <= 8 * y + x,
                decreases 8 - x,
            {
                match self.player_at(Position { x: x as i8, y: y as i8 }) {
                    Some(q) => if q == player {
                        count = count + 1;
                    },
                    None => {},
                }
                x = x + 1;
            }
            y = y + 1;
        }
        proof {
            self.lemma_view_wf();
        }
        count
    }

    /// Signed disc-count differential from `player`'s perspective.
    pub fn heuristic(&self, player: Player) -> (r: i64)
        requires
            self.wf(),
        ensures
            r == heur(self@, player),
            -64 <= r <= 64,
    {
        self.player_score(player) - self.player_score(player.opponent())
    }
}

/// The number of `pl`'s discs among the first `n` cells of one row.
pub open spec fn row_count(row: Seq<Option<Player>>, pl: Player, n: int) -> int
    decreases n,
{
    if n <= 0 {
        0
    } else {
        row_count(row, pl, n - 1) + if row[n - 1] == Some(pl) {
            1int
        } else {
            0int
        }
    }
}

/// The number of `pl`'s discs in the first `rows` rows.
pub open spec fn grid_count(g: Grid, pl: Player, rows: int) -> int
    decreases rows,
{
    if rows <= 0 {
        0
    } else {
        grid_count(g, pl, rows - 1) + row_count(g[rows - 1], pl, 8)
    }
}

/// The number of `pl`'s discs on the whole grid.
pub open spec fn score(g: Grid, pl: Player) -> int {
    grid_count(g, pl, 8)
}

/// Signed disc-count differential: `pl`'s discs minus the opponent's.
pub open spec fn heur(g: Grid, pl: Player) -> int {
    score(g, pl) - score(g, pl.opp())
}

proof fn lemma_row_count_bounds(row: Seq<Option<Player>>, pl: Player, n: int)
    requires
        0 <= n,
    ensures
        0 <= row_count(row, pl, n) <= n,
    decreases n,
{
    if n > 0 {
        lemma_row_count_bounds(row, pl, n - 1);
    }
}

proof fn lemma_grid_count_bounds(g: Grid, pl: Player, rows: int)
    requires
        0 <= rows,
    ensures
        0 <= grid_count(g, pl, rows) <= 8 * rows,
    decreases rows,
{
    if rows > 0 {
        lemma_grid_count_bounds(g, pl, rows - 1);
        lemma_row_count_bounds(g[rows - 1], pl, 8);
    }
}

proof fn lemma_row_count_both(row: Seq<Option<Player>>, pl: Player, n: int)
    requires
        0 <= n,
    ensures
        row_count(row, pl, n) + row_count(row, pl.opp(), n) <= n,
    decreases n,
{
    if n > 0 {
        lemma_row_count_both(row, pl, n - 1);
    }
}

/// Conservation bound: the two sides' scores never sum past the 64 cells,
/// and each lies in [0, 64].
pub proof fn lemma_total_bound(g: Grid, pl: Player)
    requires
        grid_wf(g),
    ensures
        score(g, pl) + score(g, pl.opp()) <= 64,
        0 <= score(g, pl) <= 64,
{
    lemma_grid_count_bounds(g, pl, 8);
    assert forall|rows: int| 0 <= rows <= 8 implies grid_count(g, pl, rows) + grid_count(
        g,
        pl.opp(),
        rows,
    ) <= 8 * rows by {
        lemma_total_bound_rec(g, pl, rows);
    }
}

proof fn lemma_total_bound_rec(g: Grid, pl: Player, rows: int)
    requires
        0 <= rows,
    ensures
        grid_count(g, pl, rows) + grid_count(g, pl.opp(), rows) <= 8 * rows,
    decreases rows,
{
    if rows > 0 {
        lemma_total_bound_rec(g, pl, rows - 1);
        lemma_row_count_both(g[rows - 1], pl, 8);
    }
}

/// Heuristic symmetry: a position is worth to a player exactly the negation
/// of what it is worth to the opponent.
pub proof fn lemma_heuristic_symmetry(g: Grid, pl: Player)
    ensures
        heur(g, pl) == -heur(g, pl.opp()),
{
    assert(pl.opp().opp() == pl);
}

proof fn lemma_row_count_update(row: Seq<Option<Player>>, pl: Player, n: int, x: int, v: Option<
    Player,
>)
    requires
        0 <= x < row.len(),
        n <= row.len(),
    ensures
        row_count(row.update(x, v), pl, n) == row_count(row, pl, n) + if x < n {
            (if v == Some(pl) {
                1int
            } else {
                0int
            }) - (if row[x] == Some(pl) {
                1int
            } else {
                0int
            })
        } else {
            0int
        },
    decreases n,
{
    if n > 0 {
        lemma_row_count_update(row, pl, n - 1, x, v);
    }
}

proof fn lemma_grid_count_put(g: Grid, x: int, y: int, p: Player, q: Player, rows: int)
    requires
        grid_wf(g),
        in_range(x, y),
        0 <= rows <= 8,
    ensures
        grid_count(put(g, x, y, p), q, rows) == grid_count(g, q, rows) + if y < rows {
            (if p == q {
                1int
            } else {
                0int
            }) - (if cell(g, x, y) == Some(q) {
                1int
            } else {
                0int
            })
        } else {
            0int
        },
    decreases rows,
{
    if rows > 0 {
        lemma_grid_count_put(g, x, y, p, q, rows - 1);
        if y == rows - 1 {
            lemma_row_count_update(g[y], q, 8, x, Some(p));
        }
    }
}

/// Cells `(px + k*dx, py + k*dy)` for `k` in `[1, n]` are all in range and
/// hold the opponent of `pl`.
pub open spec fn opp_run(g: Grid, px: int, py: int, dx: int, dy: int, pl: Player, n: int) -> bool
    decreases n,
{
    if n <= 0 {
        true
    } else {
        &&& opp_run(g, px, py, dx, dy, pl, n - 1)
        &&& in_range(px + n * dx, py + n * dy)
        &&& cell(g, px + n * dx, py + n * dy) == Some(pl.opp())
    }
}

/// A valid capture line of length `n` from the origin in direction (dx, dy):
/// at least one opponent disc (`n >= 2` counting the terminal cell), every
/// cell strictly between origin and terminal held by the opponent, and the
/// terminal cell in range and held by `pl`.
pub open spec fn bridge_ok(g: Grid, px: int, py: int, dx: int, dy: int, pl: Player, n: int) -> bool {
    &&& 2 <= n
    &&& opp_run(g, px, py, dx, dy, pl, n - 1)
    &&& in_range(px + n * dx, py + n * dy)
    &&& cell(g, px + n * dx, py + n * dy) == Some(pl)
}

/// Some capture line exists in this direction.
pub open spec fn has_bridge(g: Grid, px: int, py: int, dx: int, dy: int, pl: Player) -> bool {
    exists|n: int| bridge_ok(g, px, py, dx, dy, pl, n)
}

/// The length of the capture line in this direction (unique when it exists).
pub open spec fn bridge_len(g: Grid, px: int, py: int, dx: int, dy: int, pl: Player) -> int {
    choose|n: int| bridge_ok(g, px, py, dx, dy, pl, n)
}

pub proof fn lemma_opp_run_cells(
    g: Grid,
    px: int,
    py: int,
    dx: int,
    dy: int,
    pl: Player,
    n: int,
    k: int,
)
    requires
        opp_run(g, px, py, dx, dy, pl, n),
        1 <= k <= n,
    ensures
        in_range(px + k * dx, py + k * dy),
        cell(g, px + k * dx, py + k * dy) == Some(pl.opp()),
    decreases n,
{
    if k < n {
        lemma_opp_run_cells(g, px, py, dx, dy, pl, n - 1, k);
    }
}

/// A capture line's length is unique: the first non-opponent cell along the
/// ray ends every candidate line.
pub proof fn lemma_bridge_unique(
    g: Grid,
    px: int,
    py: int,
    dx: int,
    dy: int,
    pl: Player,
    n: int,
    m: int,
)
    requires
        bridge_ok(g, px, py, dx, dy, pl, n),
        bridge_ok(g, px, py, dx, dy, pl, m),
    ensures
        n == m,
{
    assert(pl.opp() != pl);
    if n < m {
        lemma_opp_run_cells(g, px, py, dx, dy, pl, m - 1, n);
    }
    if m < n {
        lemma_opp_run_cells(g, px, py, dx, dy, pl, n - 1, m);
    }
}

proof fn lemma_mul_small(k: int, d: int)
    by (nonlinear_arith)
    requires
        -1 <= d <= 1,
    ensures
        k * d == (if d == 1 {
            k
        } else if d == -1 {
            -k
        } else {
            0int
        }),
{
}

proof fn lemma_run_short(g: Grid, px: int, py: int, dx: int, dy: int, pl: Player, m: int)
    requires
        opp_run(g, px, py, dx, dy, pl, m),
        in_range(px, py),
        -1 <= dx <= 1,
        -1 <= dy <= 1,
        !(dx == 0 && dy == 0),
        1 <= m,
    ensures
        m <= 7,
{
    lemma_opp_run_cells(g, px, py, dx, dy, pl, m, m);
    lemma_mul_small(m, dx);
    lemma_mul_small(m, dy);
}

/// How `put` moves a score: `p` gains the cell unless it already held it,
/// and the previous occupant loses it.
pub proof fn lemma_score_put(g: Grid, x: int, y: int, p: Player, q: Player)
    requires
        grid_wf(g),
        in_range(x, y),
    ensures
        score(put(g, x, y, p), q) == score(g, q) + (if p == q {
            1int
        } else {
            0int
        }) - (if cell(g, x, y) == Some(q) {
            1int
        } else {
            0int
        }),
{
    lemma_grid_count_put(g, x, y, p, q, 8);
}

/// A move's origin is acceptable for scanning: in range, and unoccupied
/// unless some earlier direction has already validated the move (in which
/// case the origin has just been marked as the mover's own disc and the
/// re-check is deliberately skipped).
pub open spec fn origin_ok(g: Grid, px: int, py: int, played: bool) -> bool {
    &&& in_range(px, py)
    &&& (played || cell(g, px, py) is None)
}

/// Direction (dx, dy) produces a capture from the origin.
pub open spec fn dir_captures(
    g: Grid,
    px: int,
    py: int,
    dx: int,
    dy: int,
    pl: Player,
    played: bool,
) -> bool {
    &&& origin_ok(g, px, py, played)
    &&& has_bridge(g, px, py, dx, dy, pl)
}

/// The grid with ray cells `1..=n` from the origin all set to `pl`.
pub open spec fn fill_ray(g: Grid, px: int, py: int, dx: int, dy: int, pl: Player, n: int) -> Grid
    decreases n,
{
    if n <= 0 {
        g
    } else {
        put(fill_ray(g, px, py, dx, dy, pl, n - 1), px + n * dx, py + n * dy, pl)
    }
}

/// The effect of scanning one direction: on a capture, the origin and the
/// whole capture line are set to `pl`; otherwise the grid is unchanged.
pub open spec fn apply_dir(
    g: Grid,
    px: int,
    py: int,
    dx: int,
    dy: int,
    pl: Player,
    played: bool,
) -> (Grid, bool) {
    if dir_captures(g, px, py, dx, dy, pl, played) {
        (
            fill_ray(put(g, px, py, pl), px, py, dx, dy, pl, bridge_len(g, px, py, dx, dy, pl)),
            true,
        )
    } else {
        (g, false)
    }
}

/// The fixed scan order of the 8 directions: x component.
pub open spec fn dir_dx(i: int) -> int {
    if i <= 2 {
        -1
    } else if i <= 4 {
        0
    } else {
        1
    }
}

/// The fixed scan order of the 8 directions: y component.
pub open spec fn dir_dy(i: int) -> int {
    if i == 0 || i == 3 || i == 5 {
        -1
    } else if i == 1 || i == 6 {
        0
    } else {
        1
    }
}

/// The sequential effect of scanning directions `i..8`, threading the
/// "already validated" flag.
pub open spec fn play_from(g: Grid, px: int, py: int, pl: Player, i: int, played: bool) -> (
    Grid,
    bool,
)
    decreases 8 - i,
{
    if i >= 8 {
        (g, played)
    } else {
        let step = apply_dir(g, px, py, dir_dx(i), dir_dy(i), pl, played);
        play_from(step.0, px, py, pl, i + 1, played || step.1)
    }
}

/// The full effect of attempting a move at (px, py): the resulting grid and
/// whether any direction captured.
pub open spec fn play(g: Grid, px: int, py: int, pl: Player) -> (Grid, bool) {
    play_from(g, px, py, pl, 0, false)
}

/// The move is legal: at least one direction captures.
pub open spec fn is_legal(g: Grid, px: int, py: int, pl: Player) -> bool {
    play(g, px, py, pl).1
}

fn dir_at(i: usize) -> (d: Direction)
    requires
        i < 8,
    ensures
        d.dx as int == dir_dx(i as int),
        d.dy as int == dir_dy(i as int),
        d.is_unit(),
{
    match i {
        0 => Direction { dx: -1, dy: -1 },
        1 => Direction { dx: -1, dy: 0 },
        2 => Direction { dx: -1, dy: 1 },
        3 => Direction { dx: 0, dy: -1 },
        4 => Direction { dx: 0, dy: 1 },
        5 => Direction { dx: 1, dy: -1 },
        6 => Direction { dx: 1, dy: 0 },
        _ => Direction { dx: 1, dy: 1 },
    }
}

impl Board {
    /// Scans one direction from `p` for a capture line. Returns the line
    /// (opponent run plus the terminal own disc, in walk order), or an empty
    /// vector if this direction captures nothing.
    pub fn find_bridge_candidate(&self, p: Position, d: Direction, player: Player, played: bool) -> (r:
        Vec<Position>)
        requires
            d.is_unit(),
        ensures
            r@.len() != 0 <==> dir_captures(
                self@,
                p.xi(),
                p.yi(),
                d.dx as int,
                d.dy as int,
                player,
                played,
            ),
            r@.len() != 0 ==> bridge_ok(
                self@,
                p.xi(),
                p.yi(),
                d.dx as int,
                d.dy as int,
                player,
                r@.len() as int,
            ),
            forall|k: int|
                0 <= k < r@.len() ==> (#[trigger] r@[k]).xi() == p.xi() + (k + 1) * (d.dx as int)
                    && r@[k].yi() == p.yi() + (k + 1) * (d.dy as int),
    {
        let ghost g = self@;
        let ghost px = p.xi();
        let ghost py = p.yi();
        let ghost dxi = d.dx as int;
        let ghost dyi = d.dy as int;
        let empty: Vec<Position> = Vec::new();
        if !p.is_valid() {
            return empty;
        }
        if !played {
            match self.player_at(p) {
                Some(_) => {
                    return empty;
                },
                None => {},
            }
        }
        let mut r: Vec<Position> = Vec::new();
        let mut current = p.neighbor(d);
        r.push(current);
        proof {
            assert(1 * dxi == dxi);
            assert(1 * dyi == dyi);
        }
        loop
            invariant
                p.valid(),
                d.is_unit(),
                dxi == d.dx as int,
                dyi == d.dy as int,
                g == self@,
                px == p.xi(),
                py == p.yi(),
                1 <= r@.len() <= 8,
                current == r@[r@.len() - 1],
                current.xi() == px + (r@.len() as int) * dxi,
                current.yi() == py + (r@.len() as int) * dyi,
                forall|k: int|
                    0 <= k < r@.len() ==> (#[trigger] r@[k]).xi() == px + (k + 1) * dxi
                        && r@[k].yi() == py + (k + 1) * dyi,
                opp_run(g, px, py, dxi, dyi, player, r@.len() - 1),
            ensures
                1 <= r@.len() <= 8,
                current == r@[r@.len() - 1],
                current.xi() == px + (r@.len() as int) * dxi,
                current.yi() == py + (r@.len() as int) * dyi,
                forall|k: int|
                    0 <= k < r@.len() ==> (#[trigger] r@[k]).xi() == px + (k + 1) * dxi
                        && r@[k].yi() == py + (k + 1) * dyi,
                opp_run(g, px, py, dxi, dyi, player, r@.len() - 1),
                !current.valid() || cell(g, current.xi(), current.yi()) != Some(player.opp()),
            decreases 9 - r@.len(),
        {
            if !current.is_valid() {
                break ;
            }
            let occ = self.player_at(current);
            let is_opp = match occ {
                Some(q) => q == player.opponent(),
                None => false,
            };
            if !is_opp {
                break ;
            }
            proof {
                let n = r@.len() as int;
                assert(opp_run(g, px, py, dxi, dyi, player, n));
                lemma_run_short(g, px, py, dxi, dyi, player, n);
                assert((n + 1) * dxi == n * dxi + 1 * dxi) by (nonlinear_arith);
                assert((n + 1) * dyi == n * dyi + 1 * dyi) by (nonlinear_arith);
            }
            current = current.neighbor(d);
            r.push(current);
        }
        let n = r.len();
        proof {
            assert(player.opp() != player);
        }
        if current.is_valid() && n > 1 {
            match self.player_at(current) {
                Some(q) => {
                    if q == player {
                        // the walk ended on the mover's own disc: a capture
                        proof {
                            assert(bridge_ok(g, px, py, dxi, dyi, player, n as int));
                        }
                        return r;
                    }
                },
                None => {},
            }
        }
        proof {
            let nn = r@.len() as int;
            assert forall|m: int| !bridge_ok(g, px, py, dxi, dyi, player, m) by {
                if bridge_ok(g, px, py, dxi, dyi, player, m) {
                    if m < nn {
                        lemma_opp_run_cells(g, px, py, dxi, dyi, player, nn - 1, m);
                    } else if m > nn {
                        lemma_opp_run_cells(g, px, py, dxi, dyi, player, m - 1, nn);
                    }
                }
            }
        }
        empty
    }

    /// Attempts to place a disc for `player` at `p`. Every direction with a
    /// capture line is flipped (the origin is marked on the first success);
    /// returns whether any direction captured. On an illegal placement the
    /// board is left bit-for-bit unchanged.
    pub fn play_at(&mut self, p: Position, player: Player) -> (r: bool)
        requires
            old(self).wf(),
        ensures
            final (self).wf(),
            r == is_legal(old(self)@, p.xi(), p.yi(), player),
            final (self)@ == play(old(self)@, p.xi(), p.yi(), player).0,
            !r ==> *final (self) == *old(self),
    {
        let ghost g0 = old(self)@;
        let ghost px = p.xi();
        let ghost py = p.yi();
        let mut played = false;
        let mut i: usize = 0;
        while i < 8
            invariant
                self.wf(),
                i <= 8,
                px == p.xi(),
                py == p.yi(),
                play_from(g0, px, py, player, 0, false) == play_from(
                    self@,
                    px,
                    py,
                    player,
                    i as int,
                    played,
                ),
                !played ==> *self == *old(self) && self@ == g0,
                played ==> p.valid(),
            decreases 8 - i,
        {
            let d = dir_at(i);
            let ghost dxi = d.dx as int;
            let ghost dyi = d.dy as int;
            let ghost gpre = self@;
            let ghost played_pre = played;
            let bridge = self.find_bridge_candidate(p, d, player, played);
            if bridge.len() > 0 {
                proof {
                    self.lemma_view_wf();
                    let blen = bridge_len(gpre, px, py, dxi, dyi, player);
                    assert(bridge_ok(gpre, px, py, dxi, dyi, player, blen));
                    lemma_bridge_unique(
                        gpre,
                        px,
                        py,
                        dxi,
                        dyi,
                        player,
                        bridge@.len() as int,
                        blen,
                    );
                }
                played = true;
                self.set_cell(p, player);
                let ghost g1 = put(gpre, px, py, player);
                let ghost blen = bridge@.len() as int;
                let mut j: usize = 0;
                while j < bridge.len()
                    invariant
                        self.wf(),
                        j <= bridge@.len(),
                        px == p.xi(),
                        py == p.yi(),
                        p.valid(),
                        blen == bridge@.len() as int,
                        2 <= blen,
                        grid_wf(gpre),
                        bridge_ok(gpre, px, py, dxi, dyi, player, blen),
                        forall|k: int|
                            0 <= k < blen ==> (#[trigger] bridge@[k]).xi() == px + (k + 1) * dxi
                                && bridge@[k].yi() == py + (k + 1) * dyi,
                        g1 == put(gpre, px, py, player),
                        self@ == fill_ray(g1, px, py, dxi, dyi, player, j as int),
                    decreases bridge@.len() - j,
                {
                    proof {
                        let k = j as int;
                        if k + 1 < blen {
                            lemma_opp_run_cells(gpre, px, py, dxi, dyi, player, blen - 1, k + 1);
                        }
                        assert(in_range(px + (k + 1) * dxi, py + (k + 1) * dyi));
                    }
                    let q = bridge[j];
                    self.set_cell(q, player);
                    j = j + 1;
                }
                proof {
                    let step = apply_dir(gpre, px, py, dxi, dyi, player, played_pre);
                    assert(step.0 == self@ && step.1 == true);
                }
            } else {
                proof {
                    let step = apply_dir(gpre, px, py, dxi, dyi, player, played_pre);
                    assert(step == (gpre, false));
                }
            }
            i = i + 1;
        }
        played
    }
}

/// Step `k` along direction (dx, dy) from the origin lands on (x2, y2).
pub open spec fn on_ray(px: int, py: int, dx: int, dy: int, x2: int, y2: int, k: int) -> bool {
    px + k * dx == x2 && py + k * dy == y2
}

/// The total number of discs on the board, both sides together.
pub open spec fn total(g: Grid) -> int {
    score(g, Player::Black) + score(g, Player::White)
}

proof fn lemma_put_total(g: Grid, x: int, y: int, p: Player)
    requires
        grid_wf(g),
        in_range(x, y),
    ensures
        grid_wf(put(g, x, y, p)),
        total(put(g, x, y, p)) == total(g) + if cell(g, x, y) is None {
            1int
        } else {
            0int
        },
        score(put(g, x, y, p), p.opp()) <= score(g, p.opp()),
    {
    lemma_score_put(g, x, y, p, Player::Black);
    lemma_score_put(g, x, y, p, Player::White);
    lemma_cell_put(g, x, y, p, x, y);
    let c = cell(g, x, y);
    assert(c is None || c == Some(Player::Black) || c == Some(Player::White));
    assert(p == Player::Black || p == Player::White);
}

/// Ray cell `k` from the origin is in range and occupied.
pub open spec fn ray_cell_occupied(g: Grid, px: int, py: int, dx: int, dy: int, k: int) -> bool {
    in_range(px + k * dx, py + k * dy) && !(cell(g, px + k * dx, py + k * dy) is None)
}

/// Every cell of a capture line is in range and occupied.
proof fn lemma_bridge_cells(g: Grid, px: int, py: int, dx: int, dy: int, pl: Player, n: int)
    requires
        bridge_ok(g, px, py, dx, dy, pl, n),
    ensures
        forall|k: int| 1 <= k <= n ==> #[trigger] ray_cell_occupied(g, px, py, dx, dy, k),
{
    assert forall|k: int| 1 <= k <= n implies #[trigger] ray_cell_occupied(g, px, py, dx, dy, k) by {
        if k < n {
            lemma_opp_run_cells(g, px, py, dx, dy, pl, n - 1, k);
        }
    }
}

proof fn lemma_fill_ray_frame(
    g: Grid,
    px: int,
    py: int,
    dx: int,
    dy: int,
    pl: Player,
    n: int,
    x2: int,
    y2: int,
)
    requires
        grid_wf(g),
        0 <= n,
        forall|k: int| 1 <= k <= n ==> #[trigger] in_range(px + k * dx, py + k * dy),
        in_range(x2, y2),
        forall|k: int| 1 <= k <= n ==> !(#[trigger] on_ray(px, py, dx, dy, x2, y2, k)),
    ensures
        grid_wf(fill_ray(g, px, py, dx, dy, pl, n)),
        cell(fill_ray(g, px, py, dx, dy, pl, n), x2, y2) == cell(g, x2, y2),
    decreases n,
{
    if n > 0 {
        lemma_fill_ray_frame(g, px, py, dx, dy, pl, n - 1, x2, y2);
        assert(in_range(px + n * dx, py + n * dy));
        assert(!on_ray(px, py, dx, dy, x2, y2, n));
        lemma_cell_put(fill_ray(g, px, py, dx, dy, pl, n - 1), px + n * dx, py + n * dy, pl, x2, y2);
    }
}

proof fn lemma_fill_ray_wf(g: Grid, px: int, py: int, dx: int, dy: int, pl: Player, n: int)
    requires
        grid_wf(g),
        0 <= n,
        forall|k: int| 1 <= k <= n ==> #[trigger] in_range(px + k * dx, py + k * dy),
    ensures
        grid_wf(fill_ray(g, px, py, dx, dy, pl, n)),
    decreases n,
{
    if n > 0 {
        lemma_fill_ray_wf(g, px, py, dx, dy, pl, n - 1);
        assert(in_range(px + n * dx, py + n * dy));
        lemma_cell_put(
            fill_ray(g, px, py, dx, dy, pl, n - 1),
            px + n * dx,
            py + n * dy,
            pl,
            px + n * dx,
            py + n * dy,
        );
    }
}

/// Distinct steps along one unit direction land on distinct cells.
proof fn lemma_ray_distinct(px: int, py: int, dx: int, dy: int, k1: int, k2: int)
    requires
        -1 <= dx <= 1,
        -1 <= dy <= 1,
        !(dx == 0 && dy == 0),
        k1 != k2,
    ensures
        !on_ray(px, py, dx, dy, px + k2 * dx, py + k2 * dy, k1),
{
    lemma_mul_small(k1, dx);
    lemma_mul_small(k2, dx);
    lemma_mul_small(k1, dy);
    lemma_mul_small(k2, dy);
}

proof fn lemma_fill_ray_total(g: Grid, px: int, py: int, dx: int, dy: int, pl: Player, n: int)
    requires
        grid_wf(g),
        0 <= n,
        -1 <= dx <= 1,
        -1 <= dy <= 1,
        !(dx == 0 && dy == 0),
        forall|k: int| 1 <= k <= n ==> #[trigger] ray_cell_occupied(g, px, py, dx, dy, k),
    ensures
        grid_wf(fill_ray(g, px, py, dx, dy, pl, n)),
        total(fill_ray(g, px, py, dx, dy, pl, n)) == total(g),
        score(fill_ray(g, px, py, dx, dy, pl, n), pl.opp()) <= score(g, pl.opp()),
    decreases n,
{
    if n > 0 {
        lemma_fill_ray_total(g, px, py, dx, dy, pl, n - 1);
        assert forall|k: int| 1 <= k <= n - 1 implies !(#[trigger] on_ray(
            px,
            py,
            dx,
            dy,
            px + n * dx,
            py + n * dy,
            k,
        )) by {
            lemma_ray_distinct(px, py, dx, dy, k, n);
        }
        assert(ray_cell_occupied(g, px, py, dx, dy, n));
        assert forall|k: int| 1 <= k <= n - 1 implies #[trigger] in_range(
            px + k * dx,
            py + k * dy,
        ) by {
            assert(ray_cell_occupied(g, px, py, dx, dy, k));
        }
        lemma_fill_ray_frame(g, px, py, dx, dy, pl, n - 1, px + n * dx, py + n * dy);
        lemma_put_total(fill_ray(g, px, py, dx, dy, pl, n - 1), px + n * dx, py + n * dy, pl);
    }
}

proof fn lemma_apply_dir_total(
    g: Grid,
    px: int,
    py: int,
    dx: int,
    dy: int,
    pl: Player,
    played: bool,
)
    requires
        grid_wf(g),
        -1 <= dx <= 1,
        -1 <= dy <= 1,
        !(dx == 0 && dy == 0),
        played ==> in_range(px, py) && cell(g, px, py) == Some(pl),
    ensures
        grid_wf(apply_dir(g, px, py, dx, dy, pl, played).0),
        total(apply_dir(g, px, py, dx, dy, pl, played).0) == total(g) + if apply_dir(
            g,
            px,
            py,
            dx,
            dy,
            pl,
            played,
        ).1 && !played {
            1int
        } else {
            0int
        },
        score(apply_dir(g, px, py, dx, dy, pl, played).0, pl.opp()) <= score(g, pl.opp()),
        !apply_dir(g, px, py, dx, dy, pl, played).1 ==> apply_dir(g, px, py, dx, dy, pl, played).0
            == g,
        (played || apply_dir(g, px, py, dx, dy, pl, played).1) ==> in_range(px, py) && cell(
            apply_dir(g, px, py, dx, dy, pl, played).0,
            px,
            py,
        ) == Some(pl),
{
    if dir_captures(g, px, py, dx, dy, pl, played) {
        let n = bridge_len(g, px, py, dx, dy, pl);
        assert(bridge_ok(g, px, py, dx, dy, pl, n));
        lemma_bridge_cells(g, px, py, dx, dy, pl, n);
        let g1 = put(g, px, py, pl);
        lemma_put_total(g, px, py, pl);
        assert forall|k: int| 1 <= k <= n implies #[trigger] ray_cell_occupied(
            g1,
            px,
            py,
            dx,
            dy,
            k,
        ) by {
            assert(ray_cell_occupied(g, px, py, dx, dy, k));
            lemma_ray_distinct(px, py, dx, dy, 0, k);
            assert(!on_ray(px, py, dx, dy, px + k * dx, py + k * dy, 0));
            assert(!(px == px + k * dx && py == py + k * dy));
            lemma_cell_put(g, px, py, pl, px + k * dx, py + k * dy);
        }
        lemma_fill_ray_total(g1, px, py, dx, dy, pl, n);
        assert forall|k: int| 1 <= k <= n implies !(#[trigger] on_ray(px, py, dx, dy, px, py, k)) by {
            lemma_ray_distinct(px, py, dx, dy, k, 0);
        }
        assert forall|k: int| 1 <= k <= n implies #[trigger] in_range(
            px + k * dx,
            py + k * dy,
        ) by {
            assert(ray_cell_occupied(g1, px, py, dx, dy, k));
        }
        lemma_fill_ray_frame(g1, px, py, dx, dy, pl, n, px, py);
        lemma_cell_put(g, px, py, pl, px, py);
    }
}

proof fn lemma_play_from_total(g: Grid, px: int, py: int, pl: Player, i: int, played: bool)
    requires
        grid_wf(g),
        0 <= i <= 8,
        played ==> in_range(px, py) && cell(g, px, py) == Some(pl),
    ensures
        grid_wf(play_from(g, px, py, pl, i, played).0),
        total(play_from(g, px, py, pl, i, played).0) == total(g) + if !played && play_from(
            g,
            px,
            py,
            pl,
            i,
            played,
        ).1 {
            1int
        } else {
            0int
        },
        score(play_from(g, px, py, pl, i, played).0, pl.opp()) <= score(g, pl.opp()),
        !play_from(g, px, py, pl, i, played).1 ==> play_from(g, px, py, pl, i, played).0 == g,
        played ==> play_from(g, px, py, pl, i, played).1,
    decreases 8 - i,
{
    if i < 8 {
        let step = apply_dir(g, px, py, dir_dx(i), dir_dy(i), pl, played);
        lemma_apply_dir_total(g, px, py, dir_dx(i), dir_dy(i), pl, played);
        lemma_play_from_total(step.0, px, py, pl, i + 1, played || step.1);
    }
}

proof fn lemma_row_count_mono(r1: Seq<Option<Player>>, r2: Seq<Option<Player>>, q: Player, n: int)
    requires
        0 <= n,
        forall|x: int| 0 <= x < n && #[trigger] r2[x] == Some(q) ==> r1[x] == Some(q),
    ensures
        row_count(r2, q, n) <= row_count(r1, q, n),
    decreases n,
{
    if n > 0 {
        lemma_row_count_mono(r1, r2, q, n - 1);
    }
}

proof fn lemma_row_count_strict(
    r1: Seq<Option<Player>>,
    r2: Seq<Option<Player>>,
    q: Player,
    n: int,
    x0: int,
)
    requires
        0 <= x0 < n,
        forall|x: int| 0 <= x < n && #[trigger] r2[x] == Some(q) ==> r1[x] == Some(q),
        r1[x0] == Some(q),
        r2[x0] != Some(q),
    ensures
        row_count(r2, q, n) <= row_count(r1, q, n) - 1,
    decreases n,
{
    if x0 == n - 1 {
        lemma_row_count_mono(r1, r2, q, n - 1);
    } else {
        lemma_row_count_strict(r1, r2, q, n - 1, x0);
    }
}

proof fn lemma_grid_count_mono(g1: Grid, g2: Grid, q: Player, rows: int)
    requires
        0 <= rows <= 8,
        forall|x: int, y: int|
            0 <= x < 8 && 0 <= y < 8 && #[trigger] cell(g2, x, y) == Some(q) ==> cell(g1, x, y)
                == Some(q),
    ensures
        grid_count(g2, q, rows) <= grid_count(g1, q, rows),
    decreases rows,
{
    if rows > 0 {
        lemma_grid_count_mono(g1, g2, q, rows - 1);
        assert forall|x: int| 0 <= x < 8 && #[trigger] g2[rows - 1][x] == Some(q) implies g1[rows
            - 1][x] == Some(q) by {
            assert(cell(g2, x, rows - 1) == Some(q));
        }
        lemma_row_count_mono(g1[rows - 1], g2[rows - 1], q, 8);
    }
}

proof fn lemma_grid_count_strict(g1: Grid, g2: Grid, q: Player, rows: int, x0: int, y0: int)
    requires
        0 <= rows <= 8,
        0 <= x0 < 8,
        0 <= y0 < rows,
        forall|x: int, y: int|
            0 <= x < 8 && 0 <= y < 8 && #[trigger] cell(g2, x, y) == Some(q) ==> cell(g1, x, y)
                == Some(q),
        cell(g1, x0, y0) == Some(q),
        cell(g2, x0, y0) != Some(q),
    ensures
        grid_count(g2, q, rows) <= grid_count(g1, q, rows) - 1,
    decreases rows,
{
    assert forall|x: int| 0 <= x < 8 && #[trigger] g2[rows - 1][x] == Some(q) implies g1[rows
        - 1][x] == Some(q) by {
        assert(cell(g2, x, rows - 1) == Some(q));
    }
    if y0 == rows - 1 {
        lemma_grid_count_mono(g1, g2, q, rows - 1);
        lemma_row_count_strict(g1[rows - 1], g2[rows - 1], q, 8, x0);
    } else {
        lemma_grid_count_strict(g1, g2, q, rows - 1, x0, y0);
        lemma_row_count_mono(g1[rows - 1], g2[rows - 1], q, 8);
    }
}

proof fn lemma_fill_ray_pointwise(
    g: Grid,
    px: int,
    py: int,
    dx: int,
    dy: int,
    pl: Player,
    n: int,
    x2: int,
    y2: int,
)
    requires
        grid_wf(g),
        0 <= n,
        forall|k: int| 1 <= k <= n ==> #[trigger] in_range(px + k * dx, py + k * dy),
        in_range(x2, y2),
    ensures
        cell(fill_ray(g, px, py, dx, dy, pl, n), x2, y2) == Some(pl) || cell(
            fill_ray(g, px, py, dx, dy, pl, n),
            x2,
            y2,
        ) == cell(g, x2, y2),
    decreases n,
{
    if n > 0 {
        lemma_fill_ray_pointwise(g, px, py, dx, dy, pl, n - 1, x2, y2);
        lemma_fill_ray_wf(g, px, py, dx, dy, pl, n - 1);
        assert(in_range(px + n * dx, py + n * dy));
        lemma_cell_put(fill_ray(g, px, py, dx, dy, pl, n - 1), px + n * dx, py + n * dy, pl, x2, y2);
    }
}

proof fn lemma_play_pointwise(
    g: Grid,
    px: int,
    py: int,
    pl: Player,
    i: int,
    played: bool,
    x2: int,
    y2: int,
)
    requires
        grid_wf(g),
        0 <= i <= 8,
        in_range(x2, y2),
    ensures
        cell(play_from(g, px, py, pl, i, played).0, x2, y2) == Some(pl) || cell(
            play_from(g, px, py, pl, i, played).0,
            x2,
            y2,
        ) == cell(g, x2, y2),
    decreases 8 - i,
{
    if i < 8 {
        let dx = dir_dx(i);
        let dy = dir_dy(i);
        let step = apply_dir(g, px, py, dx, dy, pl, played);
        if step.1 {
            let n = bridge_len(g, px, py, dx, dy, pl);
            assert(bridge_ok(g, px, py, dx, dy, pl, n));
            lemma_bridge_cells(g, px, py, dx, dy, pl, n);
            assert forall|k: int| 1 <= k <= n implies #[trigger] in_range(
                px + k * dx,
                py + k * dy,
            ) by {
                assert(ray_cell_occupied(g, px, py, dx, dy, k));
            }
            let g1 = put(g, px, py, pl);
            lemma_cell_put(g, px, py, pl, x2, y2);
            lemma_cell_put(g, px, py, pl, px, py);
            lemma_fill_ray_pointwise(g1, px, py, dx, dy, pl, n, x2, y2);
            lemma_fill_ray_wf(g1, px, py, dx, dy, pl, n);
        }
        lemma_play_pointwise(step.0, px, py, pl, i + 1, played || step.1, x2, y2);
    }
}

proof fn lemma_first_capture(g: Grid, px: int, py: int, pl: Player, i: int)
    requires
        0 <= i <= 8,
        play_from(g, px, py, pl, i, false).1,
    ensures
        in_range(px, py),
        cell(g, px, py) is None,
        exists|j: int, n: int|
            i <= j < 8 && #[trigger] bridge_ok(g, px, py, dir_dx(j), dir_dy(j), pl, n),
    decreases 8 - i,
{
    assert(i < 8);
    let step = apply_dir(g, px, py, dir_dx(i), dir_dy(i), pl, false);
    if step.1 {
        let n = bridge_len(g, px, py, dir_dx(i), dir_dy(i), pl);
        assert(bridge_ok(g, px, py, dir_dx(i), dir_dy(i), pl, n));
    } else {
        lemma_first_capture(g, px, py, pl, i + 1);
    }
}

/// Conservation: a successful move adds exactly one disc to the board in
/// total (the origin; flips only transfer discs), the mover's own score
/// rises by one more than what the opponent loses, the opponent strictly
/// loses at least one disc, and a rejected move leaves the grid unchanged.
pub proof fn lemma_conservation(g: Grid, px: int, py: int, pl: Player)
    requires
        grid_wf(g),
    ensures
        grid_wf(play(g, px, py, pl).0),
        is_legal(g, px, py, pl) ==> total(play(g, px, py, pl).0) == total(g) + 1,
        is_legal(g, px, py, pl) ==> score(play(g, px, py, pl).0, pl) - score(g, pl) == 1 + (score(
            g,
            pl.opp(),
        ) - score(play(g, px, py, pl).0, pl.opp())),
        is_legal(g, px, py, pl) ==> cell(g, px, py) is None,
        is_legal(g, px, py, pl) ==> score(play(g, px, py, pl).0, pl.opp()) <= score(g, pl.opp())
            - 1,
        is_legal(g, px, py, pl) ==> score(play(g, px, py, pl).0, pl) >= score(g, pl) + 2,
        score(play(g, px, py, pl).0, pl.opp()) <= score(g, pl.opp()),
        !is_legal(g, px, py, pl) ==> play(g, px, py, pl).0 == g,
{
    lemma_play_from_total(g, px, py, pl, 0, false);
    if pl == Player::White {
        assert(total(play(g, px, py, pl).0) == score(play(g, px, py, pl).0, pl) + score(
            play(g, px, py, pl).0,
            pl.opp(),
        ));
    }
    if is_legal(g, px, py, pl) {
        lemma_first_capture(g, px, py, pl, 0);
        let (j, n) = choose|j: int, n: int|
            0 <= j < 8 && #[trigger] bridge_ok(g, px, py, dir_dx(j), dir_dy(j), pl, n);
        lemma_capture_correct(g, px, py, pl, j, n);
        lemma_opp_run_cells(g, px, py, dir_dx(j), dir_dy(j), pl, n - 1, 1);
        let fx = px + 1 * dir_dx(j);
        let fy = py + 1 * dir_dy(j);
        let g2 = play(g, px, py, pl).0;
        assert(cell(g, fx, fy) == Some(pl.opp()));
        assert(ray_cell(g2, px, py, dir_dx(j), dir_dy(j), 1) == Some(pl));
        assert(cell(g2, fx, fy) == Some(pl));
        assert(pl.opp() != pl);
        assert forall|x: int, y: int|
            0 <= x < 8 && 0 <= y < 8 && #[trigger] cell(g2, x, y) == Some(pl.opp()) implies cell(
            g,
            x,
            y,
        ) == Some(pl.opp()) by {
            lemma_play_pointwise(g, px, py, pl, 0, false, x, y);
        }
        lemma_grid_count_strict(g, g2, pl.opp(), 8, fx, fy);
    }
}

/// Occupancy exclusivity: a cell holds at most one player's disc. In the
/// grid model each cell is a single optional occupant, so two players can
/// never claim one cell; at the representation level the invariant `wf`,
/// established by `new` and preserved by `set_cell` and `play_at`, keeps the
/// two row bitmasks disjoint.
pub proof fn lemma_occupancy_exclusive(g: Grid, x: int, y: int, p: Player, q: Player)
    requires
        cell(g, x, y) == Some(p),
        cell(g, x, y) == Some(q),
    ensures
        p == q,
{
}

/// The occupant of the cell `k` steps along (dx, dy) from the origin.
pub open spec fn ray_cell(g: Grid, px: int, py: int, dx: int, dy: int, k: int) -> Option<Player> {
    cell(g, px + k * dx, py + k * dy)
}

proof fn lemma_opp_run_same(
    g: Grid,
    g2: Grid,
    px: int,
    py: int,
    dx: int,
    dy: int,
    pl: Player,
    n: int,
)
    requires
        opp_run(g, px, py, dx, dy, pl, n),
        0 <= n,
        forall|k: int|
            1 <= k <= n ==> #[trigger] ray_cell(g2, px, py, dx, dy, k) == ray_cell(
                g,
                px,
                py,
                dx,
                dy,
                k,
            ),
    ensures
        opp_run(g2, px, py, dx, dy, pl, n),
    decreases n,
{
    if n > 0 {
        lemma_opp_run_same(g, g2, px, py, dx, dy, pl, n - 1);
        assert(ray_cell(g2, px, py, dx, dy, n) == ray_cell(g, px, py, dx, dy, n));
    }
}

proof fn lemma_bridge_same(
    g: Grid,
    g2: Grid,
    px: int,
    py: int,
    dx: int,
    dy: int,
    pl: Player,
    n: int,
)
    requires
        bridge_ok(g, px, py, dx, dy, pl, n),
        forall|k: int|
            1 <= k <= n ==> #[trigger] ray_cell(g2, px, py, dx, dy, k) == ray_cell(
                g,
                px,
                py,
                dx,
                dy,
                k,
            ),
    ensures
        bridge_ok(g2, px, py, dx, dy, pl, n),
{
    lemma_opp_run_same(g, g2, px, py, dx, dy, pl, n - 1);
    assert(ray_cell(g2, px, py, dx, dy, n) == ray_cell(g, px, py, dx, dy, n));
}

proof fn lemma_fill_ray_on(g: Grid, px: int, py: int, dx: int, dy: int, pl: Player, n: int, k: int)
    requires
        grid_wf(g),
        -1 <= dx <= 1,
        -1 <= dy <= 1,
        !(dx == 0 && dy == 0),
        forall|m: int| 1 <= m <= n ==> #[trigger] in_range(px + m * dx, py + m * dy),
        1 <= k <= n,
    ensures
        ray_cell(fill_ray(g, px, py, dx, dy, pl, n), px, py, dx, dy, k) == Some(pl),
    decreases n,
{
    assert(in_range(px + n * dx, py + n * dy));
    if k == n {
        lemma_fill_ray_wf(g, px, py, dx, dy, pl, n - 1);
        lemma_cell_put(
            fill_ray(g, px, py, dx, dy, pl, n - 1),
            px + n * dx,
            py + n * dy,
            pl,
            px + k * dx,
            py + k * dy,
        );
    } else {
        lemma_fill_ray_on(g, px, py, dx, dy, pl, n - 1, k);
        lemma_fill_ray_wf(g, px, py, dx, dy, pl, n - 1);
        lemma_ray_distinct(px, py, dx, dy, k, n);
        assert(in_range(px + k * dx, py + k * dy));
        lemma_cell_put(
            fill_ray(g, px, py, dx, dy, pl, n - 1),
            px + n * dx,
            py + n * dy,
            pl,
            px + k * dx,
            py + k * dy,
        );
    }
}

/// Distinct scan directions have disjoint rays: no positive step along one
/// lands on a positive step along the other.
proof fn lemma_cross_ray_distinct(px: int, py: int, i: int, j: int, k: int, m: int)
    requires
        0 <= i < 8,
        0 <= j < 8,
        i != j,
        1 <= k,
        1 <= m,
    ensures
        !(px + k * dir_dx(i) == px + m * dir_dx(j) && py + k * dir_dy(i) == py + m * dir_dy(j)),
{
    lemma_mul_small(k, dir_dx(i));
    lemma_mul_small(m, dir_dx(j));
    lemma_mul_small(k, dir_dy(i));
    lemma_mul_small(m, dir_dy(j));
}

proof fn lemma_capture_steps(
    g: Grid,
    px: int,
    py: int,
    pl: Player,
    i0: int,
    n: int,
    j: int,
    played: bool,
)
    requires
        grid_wf(g),
        in_range(px, py),
        0 <= j <= 8,
        0 <= i0 < 8,
        2 <= n,
        played ==> cell(g, px, py) == Some(pl),
        !played ==> cell(g, px, py) is None,
        j <= i0 ==> bridge_ok(g, px, py, dir_dx(i0), dir_dy(i0), pl, n),
        i0 < j ==> played && (forall|k: int|
            1 <= k <= n ==> #[trigger] ray_cell(g, px, py, dir_dx(i0), dir_dy(i0), k) == Some(pl)),
        forall|k: int| 1 <= k <= n ==> #[trigger] in_range(px + k * dir_dx(i0), py + k * dir_dy(i0)),
    ensures
        play_from(g, px, py, pl, j, played).1,
        cell(play_from(g, px, py, pl, j, played).0, px, py) == Some(pl),
        forall|k: int|
            1 <= k <= n ==> #[trigger] ray_cell(
                play_from(g, px, py, pl, j, played).0,
                px,
                py,
                dir_dx(i0),
                dir_dy(i0),
                k,
            ) == Some(pl),
        forall|k: int|
            n < k && in_range(px + k * dir_dx(i0), py + k * dir_dy(i0)) ==> #[trigger] ray_cell(
                play_from(g, px, py, pl, j, played).0,
                px,
                py,
                dir_dx(i0),
                dir_dy(i0),
                k,
            ) == ray_cell(g, px, py, dir_dx(i0), dir_dy(i0), k),
    decreases 8 - j,
{
    let dxi = dir_dx(i0);
    let dyi = dir_dy(i0);
    if j == 8 {
        assert(i0 < j);
    } else {
        let dx = dir_dx(j);
        let dy = dir_dy(j);
        let step = apply_dir(g, px, py, dx, dy, pl, played);
        lemma_apply_dir_total(g, px, py, dx, dy, pl, played);
        let played2 = played || step.1;
        if j == i0 {
            // this is the capturing direction: the whole line flips to `pl`
            assert(dir_captures(g, px, py, dx, dy, pl, played));
            let blen = bridge_len(g, px, py, dx, dy, pl);
            assert(bridge_ok(g, px, py, dx, dy, pl, blen));
            lemma_bridge_unique(g, px, py, dx, dy, pl, n, blen);
            let g1 = put(g, px, py, pl);
            lemma_cell_put(g, px, py, pl, px, py);
            assert forall|k: int|
                1 <= k <= n implies #[trigger] ray_cell(step.0, px, py, dxi, dyi, k) == Some(
                pl,
            ) by {
                assert(in_range(px + k * dxi, py + k * dyi));
                lemma_fill_ray_on(g1, px, py, dx, dy, pl, n, k);
            }
            assert forall|k: int|
                n < k && in_range(px + k * dxi, py + k * dyi) implies #[trigger] ray_cell(
                step.0,
                px,
                py,
                dxi,
                dyi,
                k,
            ) == ray_cell(g, px, py, dxi, dyi, k) by {
                assert forall|m: int| 1 <= m <= n implies !(#[trigger] on_ray(
                    px,
                    py,
                    dx,
                    dy,
                    px + k * dxi,
                    py + k * dyi,
                    m,
                )) by {
                    lemma_ray_distinct(px, py, dx, dy, m, k);
                }
                lemma_fill_ray_frame(g1, px, py, dx, dy, pl, n, px + k * dxi, py + k * dyi);
                lemma_ray_distinct(px, py, dxi, dyi, k, 0);
                lemma_cell_put(g, px, py, pl, px + k * dxi, py + k * dyi);
            }
            lemma_capture_steps(step.0, px, py, pl, i0, n, j + 1, played2);
        } else {
            // another direction: it never touches ray `i0`
            assert forall|k: int|
                1 <= k <= n || (n < k && in_range(px + k * dxi, py + k * dyi)) implies #[trigger] ray_cell(
                step.0,
                px,
                py,
                dxi,
                dyi,
                k,
            ) == ray_cell(g, px, py, dxi, dyi, k) by {
                if k <= n {
                    assert(in_range(px + k * dxi, py + k * dyi));
                }
                if step.1 {
                    let blen = bridge_len(g, px, py, dx, dy, pl);
                    assert(bridge_ok(g, px, py, dx, dy, pl, blen));
                    lemma_bridge_cells(g, px, py, dx, dy, pl, blen);
                    let g1 = put(g, px, py, pl);
                    lemma_cell_put(g, px, py, pl, px + k * dxi, py + k * dyi);
                    assert(cell(g1, px + k * dxi, py + k * dyi) == cell(
                        g,
                        px + k * dxi,
                        py + k * dyi,
                    )) by {
                        lemma_ray_distinct(px, py, dxi, dyi, k, 0);
                    }
                    assert forall|m: int| 1 <= m <= blen implies !(#[trigger] on_ray(
                        px,
                        py,
                        dx,
                        dy,
                        px + k * dxi,
                        py + k * dyi,
                        m,
                    )) by {
                        lemma_cross_ray_distinct(px, py, i0, j, k, m);
                    }
                    assert forall|m: int| 1 <= m <= blen implies #[trigger] in_range(
                        px + m * dx,
                        py + m * dy,
                    ) by {
                        assert(ray_cell_occupied(g, px, py, dx, dy, m));
                    }
                    lemma_fill_ray_frame(g1, px, py, dx, dy, pl, blen, px + k * dxi, py + k * dyi);
                }
            }
            if j < i0 {
                lemma_bridge_same(g, step.0, px, py, dxi, dyi, pl, n);
            }
            lemma_capture_steps(step.0, px, py, pl, i0, n, j + 1, played2);
        }
    }
}

/// Capture correctness: a run of opponent discs from an empty in-range
/// origin, closed by the mover's own disc, makes the move legal, and the
/// move flips exactly that run — the origin and every cell of the line end
/// up the mover's, while the ray beyond the closing disc is untouched.
pub proof fn lemma_capture_correct(g: Grid, px: int, py: int, pl: Player, i: int, n: int)
    requires
        grid_wf(g),
        in_range(px, py),
        cell(g, px, py) is None,
        0 <= i < 8,
        bridge_ok(g, px, py, dir_dx(i), dir_dy(i), pl, n),
    ensures
        is_legal(g, px, py, pl),
        cell(play(g, px, py, pl).0, px, py) == Some(pl),
        forall|k: int|
            1 <= k <= n ==> #[trigger] ray_cell(
                play(g, px, py, pl).0,
                px,
                py,
                dir_dx(i),
                dir_dy(i),
                k,
            ) == Some(pl),
        forall|k: int|
            n < k && in_range(px + k * dir_dx(i), py + k * dir_dy(i)) ==> #[trigger] ray_cell(
                play(g, px, py, pl).0,
                px,
                py,
                dir_dx(i),
                dir_dy(i),
                k,
            ) == ray_cell(g, px, py, dir_dx(i), dir_dy(i), k),
{
    lemma_bridge_cells(g, px, py, dir_dx(i), dir_dy(i), pl, n);
    assert forall|k: int| 1 <= k <= n implies #[trigger] in_range(
        px + k * dir_dx(i),
        py + k * dir_dy(i),
    ) by {
        assert(ray_cell_occupied(g, px, py, dir_dx(i), dir_dy(i), k));
    }
    lemma_capture_steps(g, px, py, pl, i, n, 0, false);
}

} // verus!
