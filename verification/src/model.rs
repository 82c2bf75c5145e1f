//! The mathematical model of a game: the board as a sequence of rows of
//! optional players, together with the placement transition as spec-level
//! functions. The executable engine in [`crate::game`] is specified
//! against this model, and the lemmas in [`crate::laws`] are stated over
//! it.

use crate::game::GameEnd;
use crate::game::PlacementError;
use crate::game::PlacementResult;
use crate::game::Player;
use vstd::prelude::*;

verus! {

/// The abstract state of one game. Row 0 is the top of the grid and row
/// `rows - 1` the bottom: gravity fills each column from the bottom up.
#[verifier::ext_equal]
pub ghost struct BoardView {
    /// The grid contents, indexed `grid[row][col]`; `None` is an empty cell.
    pub grid: Seq<Seq<Option<Player>>>,
    pub rows: nat,
    pub cols: nat,
    /// The number of players in the rotation.
    pub players: nat,
    /// How many of the players are human: metadata for the presentation
    /// layer, never consumed by placement or win logic.
    pub humans: nat,
    pub current_player: Player,
    /// The number of successful placements that did not end the game in a
    /// win.
    pub current_turn: nat,
    /// The length a contiguous same-player sequence must reach to win.
    pub win_length: nat,
    pub winner: Option<Player>,
    pub game_over: bool,
}

impl BoardView {
    pub open spec fn in_bounds(self, r: int, c: int) -> bool {
        0 <= r < self.rows && 0 <= c < self.cols
    }

    pub open spec fn cell(self, r: int, c: int) -> Option<Player> {
        self.grid[r][c]
    }

    pub open spec fn occupied(self, r: int, c: int) -> bool {
        self.cell(r, c) is Some
    }

    /// The configuration is fixed at construction and the caller has
    /// validated it: positive dimensions, at least one player, and a
    /// winning length that fits both dimensions. The product bound is a
    /// machine limit: the grid holds `rows * cols` cells.
    pub open spec fn config_ok(self) -> bool {
        &&& self.rows >= 1
        &&& self.cols >= 1
        &&& self.players >= 1
        &&& self.win_length >= 1
        &&& self.win_length <= self.rows
        &&& self.win_length <= self.cols
        &&& self.players <= usize::MAX
        &&& self.rows * self.cols <= usize::MAX
    }

    /// The grid has exactly `rows` rows of exactly `cols` cells each.
    pub open spec fn grid_wf(self) -> bool {
        &&& self.grid.len() == self.rows
        &&& forall|r: int| 0 <= r < self.rows ==> (#[trigger] self.grid[r]).len() == self.cols
    }

    /// Every token on the grid belongs to a configured player.
    pub open spec fn cell_players_ok(self) -> bool {
        forall|r: int, c: int|
            self.in_bounds(r, c) ==> match #[trigger] self.cell(r, c) {
                Some(p) => p.index < self.players,
                None => true,
            }
    }

    /// Gravity: below an occupied cell every cell is occupied, so each
    /// column is a stack filled from the bottom row up.
    pub open spec fn gravity_ok(self) -> bool {
        forall|r: int, c: int|
            0 <= r < self.rows - 1 && 0 <= c < self.cols && #[trigger] self.occupied(r, c)
                ==> self.occupied(r + 1, c)
    }

    /// Well-formedness: established by construction and preserved by
    /// every placement.
    pub open spec fn wf(self) -> bool {
        &&& self.config_ok()
        &&& self.grid_wf()
        &&& self.cell_players_ok()
        &&& self.gravity_ok()
        &&& self.current_player.index < self.players
        &&& !self.game_over ==> self.current_turn < self.rows * self.cols
        &&& self.current_turn <= self.rows * self.cols
        &&& self.winner is Some ==> self.game_over
    }

    /// 1-based column indices accepted by `place_token`.
    pub open spec fn col_in_range(self, col: usize) -> bool {
        1 <= col <= self.cols
    }

    /// No empty cell is left in (0-based) column `c`.
    pub open spec fn column_full(self, c: int) -> bool {
        forall|r: int| 0 <= r < self.rows ==> self.occupied(r, c)
    }

    /// `r` is where a token dropped into (0-based) column `c` lands: the
    /// lowest empty cell of the column.
    pub open spec fn is_landing_row(self, c: int, r: int) -> bool {
        &&& 0 <= r < self.rows
        &&& self.cell(r, c) is None
        &&& forall|r2: int| r < r2 < self.rows ==> self.occupied(r2, c)
    }

    /// The row where a token dropped into column `c` lands. Meaningful
    /// only when the column is not full; unique when it exists.
    pub open spec fn landing_row(self, c: int) -> int {
        choose|r: int| self.is_landing_row(c, r)
    }

    /// The board with cell `(r, c)` holding a token of player `p`.
    pub open spec fn with_cell(self, r: int, c: int, p: Player) -> BoardView {
        BoardView { grid: self.grid.update(r, self.grid[r].update(c, Some(p))), ..self }
    }

    /// The index of the player who moves after the current one: the
    /// rotation is exactly cyclic.
    pub open spec fn next_player_index(self) -> nat {
        ((self.current_player.index + 1) % (self.players as int)) as nat
    }

    /// The length of the contiguous run of `p`-tokens starting at
    /// `(r, c)` and extending in direction `(dr, dc)`, cut off after
    /// `fuel` cells. With `fuel >= rows + cols` and a direction other
    /// than `(0, 0)` the cutoff is never reached, so this is the true
    /// run length.
    pub open spec fn run_from(self, r: int, c: int, dr: int, dc: int, p: Player, fuel: nat) -> nat
        decreases fuel,
    {
        if fuel == 0 {
            0
        } else if self.in_bounds(r, c) && self.cell(r, c) == Some(p) {
            1 + self.run_from(r + dr, c + dc, dr, dc, p, (fuel - 1) as nat)
        } else {
            0
        }
    }

    /// Ample fuel for any run on this board.
    pub open spec fn run_fuel(self) -> nat {
        self.rows + self.cols
    }

    /// What the engine's directional counter computes from anchor
    /// `(r, c)`: the anchor counted once, then the contiguous `p`-run in
    /// direction `(dr, dc)` beyond it. The anchor cell itself is not
    /// examined.
    pub open spec fn dir_count(self, r: int, c: int, dr: int, dc: int, p: Player) -> nat {
        1 + self.run_from(r + dr, c + dc, dr, dc, p, self.run_fuel())
    }

    /// The win condition the engine checks after placing a `p`-token at
    /// `(r, c)`, over the four axes through that cell.
    ///
    /// The vertical count extends downward only: gravity leaves nothing
    /// above a just-placed token. On the other three axes the two
    /// half-line counts both include the anchor, so their sum exceeds
    /// the true run length by one: the strict comparison against
    /// `win_length` makes the condition `true run >= win_length`.
    pub open spec fn win_at(self, r: int, c: int, p: Player) -> bool {
        ||| self.dir_count(r, c, 1, 0, p) >= self.win_length
        ||| self.dir_count(r, c, 1, -1, p) + self.dir_count(r, c, -1, 1, p) > self.win_length
        ||| self.dir_count(r, c, 1, 1, p) + self.dir_count(r, c, -1, -1, p) > self.win_length
        ||| self.dir_count(r, c, 0, -1, p) + self.dir_count(r, c, 0, 1, p) > self.win_length
    }

    /// Cells `(r + t*dr, c + t*dc)` for every offset `t` in `lo ..= hi`
    /// are in bounds and hold a token of player `p`.
    pub open spec fn run_cells(
        self,
        p: Player,
        r: int,
        c: int,
        dr: int,
        dc: int,
        lo: int,
        hi: int,
    ) -> bool {
        forall|t: int|
            lo <= t <= hi ==> self.in_bounds(r + t * dr, c + t * dc) && #[trigger] self.cell(
                r + t * dr,
                c + t * dc,
            ) == Some(p)
    }

    /// A contiguous line of `win_length` tokens of player `p` along the
    /// axis `(dr, dc)` passes through cell `(r, c)`: some window of
    /// offsets `a ..= b` around offset 0 has exactly `win_length` cells,
    /// all holding `p`.
    pub open spec fn axis_win_through(self, p: Player, r: int, c: int, dr: int, dc: int) -> bool {
        exists|a: int, b: int|
            a <= 0 <= b && b - a + 1 == self.win_length && self.run_cells(p, r, c, dr, dc, a, b)
    }

    /// A winning line through cell `(r, c)`: `win_length` contiguous
    /// cells of player `p` along one of the four axes, the cell among
    /// them. This is what "player `p` wins by the token at `(r, c)`"
    /// means; the engine's [`BoardView::win_at`] check is proved
    /// equivalent to it for a just-placed token.
    pub open spec fn winning_line_through(self, p: Player, r: int, c: int) -> bool {
        ||| self.axis_win_through(p, r, c, 1, 0)
        ||| self.axis_win_through(p, r, c, 1, 1)
        ||| self.axis_win_through(p, r, c, 1, -1)
        ||| self.axis_win_through(p, r, c, 0, 1)
    }

    /// What `place_token(col)` returns, as a function of the state.
    pub open spec fn place_outcome(self, col: usize) -> Result<PlacementResult, PlacementError> {
        if self.game_over {
            Err(PlacementError::GameAlreadyOver)
        } else if !self.col_in_range(col) {
            Err(PlacementError::InvalidColumn)
        } else if self.column_full(col - 1) {
            Err(PlacementError::ColumnFull)
        } else {
            let r = self.landing_row(col - 1);
            let placed = self.with_cell(r, col - 1, self.current_player);
            if placed.win_at(r, col - 1, self.current_player) {
                Ok(
                    PlacementResult::Ended(
                        GameEnd::Win(self.current_player, (self.current_turn + 1) as usize),
                    ),
                )
            } else if self.current_turn + 1 >= self.rows * self.cols {
                Ok(PlacementResult::Ended(GameEnd::Tie))
            } else {
                Ok(PlacementResult::Continue)
            }
        }
    }

    /// The state after `place_token(col)`: unchanged on any rejection,
    /// and otherwise the placed board with the win, tie, or turn
    /// rotation applied.
    pub open spec fn place_next(self, col: usize) -> BoardView {
        if self.place_outcome(col) is Err {
            self
        } else {
            let r = self.landing_row(col - 1);
            let placed = self.with_cell(r, col - 1, self.current_player);
            if placed.win_at(r, col - 1, self.current_player) {
                BoardView { winner: Some(self.current_player), game_over: true, ..placed }
            } else {
                BoardView {
                    current_player: Player { index: self.next_player_index() as usize },
                    current_turn: self.current_turn + 1,
                    game_over: self.current_turn + 1 >= self.rows * self.cols,
                    ..placed
                }
            }
        }
    }
}

/// A token lands in exactly one place: the landing row of a column is
/// unique.
pub proof fn lemma_landing_row_unique(m: BoardView, c: int, r1: int, r2: int)
    requires
        m.is_landing_row(c, r1),
        m.is_landing_row(c, r2),
    ensures
        r1 == r2,
{
    if r1 < r2 {
        assert(m.occupied(r2, c));
    }
    if r2 < r1 {
        assert(m.occupied(r1, c));
    }
}

/// Scans column `c` from row `k` upward for an empty cell, knowing every
/// row below `k` is occupied: a landing row exists.
proof fn lemma_landing_row_exists_rec(m: BoardView, c: int, k: int)
    requires
        0 <= c < m.cols,
        0 <= k < m.rows,
        exists|r: int| 0 <= r <= k && !m.occupied(r, c),
        forall|r2: int| k < r2 < m.rows ==> m.occupied(r2, c),
    ensures
        exists|r: int| m.is_landing_row(c, r),
    decreases k,
{
    if !m.occupied(k, c) {
        assert(m.is_landing_row(c, k));
    } else {
        let r0 = choose|r: int| 0 <= r <= k && !m.occupied(r, c);
        assert(0 <= r0 <= k - 1);
        lemma_landing_row_exists_rec(m, c, k - 1);
    }
}

/// A column that is not full has a landing row, and `landing_row` picks
/// it.
pub proof fn lemma_landing_row_exists(m: BoardView, c: int)
    requires
        m.rows >= 1,
        0 <= c < m.cols,
        !m.column_full(c),
    ensures
        m.is_landing_row(c, m.landing_row(c)),
{
    let r0 = choose|r: int| 0 <= r < m.rows && !m.occupied(r, c);
    assert(0 <= r0 <= m.rows - 1);
    lemma_landing_row_exists_rec(m, c, m.rows - 1);
}

/// Dropping the current player's token onto the landing row of a column
/// keeps the board well-formed: the grid shape is unchanged, the token
/// belongs to a configured player, and the column stays a bottom-filled
/// stack.
pub proof fn lemma_place_cell_wf(m: BoardView, r: int, c: int)
    requires
        m.wf(),
        0 <= c < m.cols,
        m.is_landing_row(c, r),
    ensures
        m.with_cell(r, c, m.current_player).wf(),
{
    let w = m.with_cell(r, c, m.current_player);
    assert forall|r2: int| 0 <= r2 < w.rows implies (#[trigger] w.grid[r2]).len() == w.cols by {
        assert(m.grid[r2].len() == m.cols);
    }
    assert forall|r2: int, c2: int| w.in_bounds(r2, c2) implies match #[trigger] w.cell(
        r2,
        c2,
    ) {
        Some(p) => p.index < w.players,
        None => true,
    } by {
        if r2 != r || c2 != c {
            assert(w.cell(r2, c2) == m.cell(r2, c2));
        }
    }
    assert forall|r2: int, c2: int|
        0 <= r2 < w.rows - 1 && 0 <= c2 < w.cols && #[trigger] w.occupied(r2, c2) implies w.occupied(
        r2 + 1,
        c2,
    ) by {
        if r2 + 1 == r && c2 == c {
            // The cell right above the landing row was empty in `m`, so
            // nothing below an occupied cell can sit there.
            assert(m.cell(r, c) is None);
            assert(w.cell(r2, c2) == m.cell(r2, c2));
            assert(m.occupied(r2, c2));
            assert(m.occupied(r2 + 1, c2));
            assert(false);
        } else if r2 == r && c2 == c {
            // The landing row has everything below it occupied.
            if r + 1 < m.rows {
                assert(m.occupied(r + 1, c));
                assert(w.cell(r + 1, c) == m.cell(r + 1, c));
            }
        } else {
            assert(w.cell(r2, c2) == m.cell(r2, c2));
            assert(m.occupied(r2, c2));
            assert(m.occupied(r2 + 1, c2));
            assert(w.cell(r2 + 1, c2) == m.cell(r2 + 1, c2));
        }
    }
}

/// Every invariant of a well-formed game survives a placement, whatever
/// its outcome: the grid keeps its shape and stays gravity-stacked, every
/// token belongs to a configured player, the current player index stays
/// in range, the turn count never passes `rows * cols`, and a winner is
/// only ever recorded on a finished game.
pub proof fn lemma_place_next_wf(m: BoardView, col: usize)
    requires
        m.wf(),
    ensures
        m.place_next(col).wf(),
{
    if m.place_outcome(col) is Err {
    } else {
        let c = col - 1;
        lemma_landing_row_exists(m, c);
        let r = m.landing_row(c);
        lemma_place_cell_wf(m, r, c);
        let placed = m.with_cell(r, c, m.current_player);
        let w = m.place_next(col);
        assert(w.grid == placed.grid);
        assert forall|r2: int| 0 <= r2 < w.rows implies (#[trigger] w.grid[r2]).len()
            == w.cols by {
            assert(placed.grid[r2].len() == placed.cols);
        }
        assert forall|r2: int, c2: int| w.in_bounds(r2, c2) implies match #[trigger] w.cell(
            r2,
            c2,
        ) {
            Some(p) => p.index < w.players,
            None => true,
        } by {
            assert(w.cell(r2, c2) == placed.cell(r2, c2));
            assert(placed.in_bounds(r2, c2));
        }
        assert forall|r2: int, c2: int|
            0 <= r2 < w.rows - 1 && 0 <= c2 < w.cols && #[trigger] w.occupied(
                r2,
                c2,
            ) implies w.occupied(r2 + 1, c2) by {
            assert(w.cell(r2, c2) == placed.cell(r2, c2));
            assert(placed.occupied(r2, c2));
            assert(placed.occupied(r2 + 1, c2));
            assert(w.cell(r2 + 1, c2) == placed.cell(r2 + 1, c2));
        }
        if !placed.win_at(r, c, m.current_player) {
            vstd::arithmetic::div_mod::lemma_mod_bound(
                m.current_player.index + 1,
                m.players as int,
            );
            assert(w.current_player.index == m.next_player_index());
        }
    }
}

} // verus!
