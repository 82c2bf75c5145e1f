//! The executable game engine: the `GameState` struct, token placement,
//! turn rotation, and the local run-counting win check. Every function is
//! specified against the mathematical model in [`crate::model`].

use crate::model::BoardView;
use vstd::prelude::*;

verus! {

/// A player, identified by a stable index `0 .. player_count - 1`.
/// The rotation order is the index order; display tokens are the
/// presentation layer's business, not the engine's.
#[derive(Clone, Copy, Debug, PartialEq, Eq, Structural)]
pub struct Player {
    pub index: usize,
}

impl Player {
    /// The player that moves after this one, before wrapping: the engine
    /// resets the index to 0 when it reaches the configured player count
    /// (see [`GameState::next_turn`]).
    pub fn next_player(&self) -> (next: Player)
        requires
            self.index < usize::MAX,
        ensures
            next.index == self.index + 1,
    {
        Player { index: self.index + 1 }
    }

    /// This player's position in the rotation order.
    pub fn player_index(&self) -> (i: usize)
        ensures
            i == self.index,
    {
        self.index
    }
}

/// How the game ended: a win by a player on a 1-based turn number, or a
/// tie on a full board.
#[derive(Clone, Copy, Debug, PartialEq, Eq, Structural)]
pub enum GameEnd {
    Win(Player, usize),
    Tie,
}

/// The outcome of a successful placement: the game goes on, or it just
/// ended.
#[derive(Clone, Copy, Debug, PartialEq, Eq, Structural)]
pub enum PlacementResult {
    Continue,
    Ended(GameEnd),
}

/// Why a placement was rejected. Every rejection leaves the game state
/// completely unmodified.
#[derive(Clone, Copy, Debug, PartialEq, Eq, Structural)]
pub enum PlacementError {
    /// The column is outside `1 ..= cols`.
    InvalidColumn,
    /// The column has no empty cell left.
    ColumnFull,
    /// `place_token` was called after the game was already over.
    GameAlreadyOver,
}

/// One game instance: the grid, the player rotation, the turn counter,
/// and the win/tie state. Created once per game by [`GameState::new_board`]
/// and mutated only through [`GameState::place_token`]; once `game_over`
/// is set it never changes again.
pub struct GameState {
    grid: Vec<Vec<Option<Player>>>,
    rows: usize,
    cols: usize,
    players: usize,
    humans: usize,
    current_player: Player,
    current_turn: usize,
    win_length: usize,
    winner: Option<Player>,
    game_over: bool,
}

impl View for GameState {
    type V = BoardView;

    closed spec fn view(&self) -> BoardView {
        BoardView {
            grid: self.grid@.map(|r: int, row: Vec<Option<Player>>| row@),
            rows: self.rows as nat,
            cols: self.cols as nat,
            players: self.players as nat,
            humans: self.humans as nat,
            current_player: self.current_player,
            current_turn: self.current_turn as nat,
            win_length: self.win_length as nat,
            winner: self.winner,
            game_over: self.game_over,
        }
    }
}

impl GameState {
    /// Creates an all-empty board. The caller has already validated the
    /// parameters: positive dimensions and counts, and a winning length
    /// that fits both dimensions.
    pub fn new_board(rows: usize, cols: usize, players: usize, humans: usize, win_length: usize) -> (game: GameState)
        requires
            rows >= 1,
            cols >= 1,
            players >= 1,
            win_length >= 1,
            win_length <= rows,
            win_length <= cols,
            rows * cols <= usize::MAX,
        ensures
            game@.wf(),
            game@.rows == rows,
            game@.cols == cols,
            game@.players == players,
            game@.humans == humans,
            game@.win_length == win_length,
            game@.current_player.index == 0,
            game@.current_turn == 0,
            game@.winner is None,
            !game@.game_over,
            forall|r: int, c: int| game@.in_bounds(r, c) ==> #[trigger] game@.cell(r, c) is None,
    {
        let mut grid: Vec<Vec<Option<Player>>> = Vec::new();
        while grid.len() < rows
            invariant
                grid.len() <= rows,
                forall|r: int| 0 <= r < grid.len() ==> (#[trigger] grid@[r]).len() == cols,
                forall|r: int, c: int|
                    0 <= r < grid.len() && 0 <= c < cols ==> grid@[r][c] is None,
            decreases rows - grid.len(),
        {
            let mut row: Vec<Option<Player>> = Vec::new();
            while row.len() < cols
                invariant
                    row.len() <= cols,
                    forall|c: int| 0 <= c < row.len() ==> row@[c] is None,
                decreases cols - row.len(),
            {
                row.push(None);
            }
            grid.push(row);
        }
        let game = GameState {
            grid,
            rows,
            cols,
            players,
            humans,
            current_player: Player { index: 0 },
            current_turn: 0,
            win_length,
            winner: None,
            game_over: false,
        };
        proof {
            assert(forall|r: int| 0 <= r < rows ==> game@.grid[r] == game.grid@[r]@);
            assert(1 <= rows * cols) by (nonlinear_arith)
                requires
                    rows >= 1,
                    cols >= 1,
            ;
        }
        game
    }

    /// Advances the rotation to the next player, wrapping past the last
    /// configured player, and counts the finished turn; returns the new
    /// turn count.
    pub fn next_turn(&mut self) -> (turn: usize)
        requires
            old(self)@.current_player.index < old(self)@.players,
            old(self)@.current_turn < old(self)@.rows * old(self)@.cols,
            old(self)@.rows * old(self)@.cols <= usize::MAX,
        ensures
            final(self)@ == (BoardView {
                current_player: Player { index: old(self)@.next_player_index() as usize },
                current_turn: (old(self)@.current_turn + 1) as nat,
                ..old(self)@
            }),
            turn == final(self)@.current_turn,
    {
        self.current_player = self.current_player.next_player();
        if self.current_player.player_index() >= self.players {
            self.current_player = Player { index: 0 };
        }
        self.current_turn = self.current_turn + 1;
        proof {
            let p = old(self)@.players as int;
            assert(old(self)@.current_player.index + 1 <= p);
            if old(self)@.current_player.index + 1 == p {
                assert(p % p == 0) by (nonlinear_arith)
                    requires
                        p >= 1,
                ;
            } else {
                vstd::arithmetic::div_mod::lemma_small_mod(
                    (old(self)@.current_player.index + 1) as nat,
                    p as nat,
                );
            }
            assert(self@.current_player.index == old(self)@.next_player_index());
        }
        self.current_turn
    }

    /// Counts tokens of the current player along one direction: the
    /// anchor cell `(row, col)` counted once (it is never examined),
    /// then one cell at a time outward in direction
    /// `(row_dir, col_dir)`, stopping at the first mismatch, empty cell,
    /// or grid edge.
    pub fn count_tokens(&self, row: usize, col: usize, row_dir: isize, col_dir: isize) -> (count:
        usize)
        requires
            self@.wf(),
            row < self@.rows,
            col < self@.cols,
            -1 <= row_dir <= 1,
            -1 <= col_dir <= 1,
            !(row_dir == 0 && col_dir == 0),
        ensures
            count == self@.dir_count(
                row as int,
                col as int,
                row_dir as int,
                col_dir as int,
                self@.current_player,
            ),
            count <= self@.rows + self@.cols - 1,
    {
        let ghost p = self@.current_player;
        let ghost dr = row_dir as int;
        let ghost dc = col_dir as int;
        let ghost fuel_all = self@.run_fuel();
        let p_index = self.current_player.player_index();
        let mut count: usize = 1;
        let mut r = row;
        let mut c = col;
        proof {
            let rows = self@.rows;
            let cols = self@.cols;
            assert(rows + cols <= rows * cols + 1) by (nonlinear_arith)
                requires
                    rows >= 1,
                    cols >= 1,
            ;
        }
        loop
            invariant_except_break
                self@.wf(),
                p == self@.current_player,
                p_index == p.index,
                dr == row_dir as int,
                dc == col_dir as int,
                -1 <= row_dir <= 1,
                -1 <= col_dir <= 1,
                !(row_dir == 0 && col_dir == 0),
                fuel_all == self@.run_fuel(),
                self@.rows + self@.cols <= self@.rows * self@.cols + 1,
                row < self@.rows,
                col < self@.cols,
                1 <= count,
                row_dir == 1 ==> r == row + (count - 1),
                row_dir == -1 ==> r == row - (count - 1),
                row_dir == 0 ==> r == row,
                col_dir == 1 ==> c == col + (count - 1),
                col_dir == -1 ==> c == col - (count - 1),
                col_dir == 0 ==> c == col,
                self@.in_bounds(r as int, c as int),
                self@.dir_count(row as int, col as int, dr, dc, p) == count
                    + self@.run_from(r + dr, c + dc, dr, dc, p, (fuel_all - (count - 1)) as nat),
            ensures
                count == self@.dir_count(row as int, col as int, dr, dc, p),
                count <= self@.rows + self@.cols - 1,
            decreases fuel_all - count,
        {
            proof {
                // The walked offset is bounded by whichever dimension the
                // direction moves through, so fuel never runs out.
                if row_dir == 0 {
                    assert(count - 1 <= self@.cols - 1);
                } else {
                    assert(count - 1 <= self@.rows - 1);
                }
            }
            let next_r: Option<usize> = if row_dir < 0 {
                if r == 0 {
                    None
                } else {
                    Some(r - 1)
                }
            } else if row_dir > 0 {
                if r + 1 < self.rows {
                    Some(r + 1)
                } else {
                    None
                }
            } else {
                Some(r)
            };
            let next_c: Option<usize> = if col_dir < 0 {
                if c == 0 {
                    None
                } else {
                    Some(c - 1)
                }
            } else if col_dir > 0 {
                if c + 1 < self.cols {
                    Some(c + 1)
                } else {
                    None
                }
            } else {
                Some(c)
            };
            match (next_r, next_c) {
                (Some(nr), Some(nc)) => {
                    proof {
                        assert(nr < self@.rows && nc < self@.cols);
                        assert(self@.grid[nr as int] == self.grid@[nr as int]@);
                    }
                    let matches_player = match self.grid[nr][nc] {
                        Some(q) => q.player_index() == p_index,
                        None => false,
                    };
                    if matches_player {
                        proof {
                            assert(self@.cell(nr as int, nc as int) == Some(p));
                            assert(self@.run_from(r + dr, c + dc, dr, dc, p, (fuel_all - (count
                                - 1)) as nat) == 1 + self@.run_from(
                                nr + dr,
                                nc + dc,
                                dr,
                                dc,
                                p,
                                (fuel_all - count) as nat,
                            ));
                        }
                        count = count + 1;
                        r = nr;
                        c = nc;
                    } else {
                        proof {
                            assert(self@.run_from(r + dr, c + dc, dr, dc, p, (fuel_all - (count
                                - 1)) as nat) == 0);
                        }
                        break ;
                    }
                },
                _ => {
                    proof {
                        assert(!self@.in_bounds(r + dr, c + dc));
                        assert(self@.run_from(r + dr, c + dc, dr, dc, p, (fuel_all - (count
                            - 1)) as nat) == 0);
                    }
                    break ;
                },
            }
        }
        count
    }

    /// Whether `a + b > limit`, computed without overflowing.
    fn sum_exceeds(a: usize, b: usize, limit: usize) -> (exceeds: bool)
        ensures
            exceeds == (a + b > limit),
    {
        if a > limit {
            true
        } else {
            b > limit - a
        }
    }

    /// Checks whether the token just placed at `(row, col)` (0-based, a
    /// token of the current player) completes a winning sequence, by
    /// counting runs along the four axes through that cell only.
    ///
    /// The vertical axis counts downward only; on the other three axes
    /// the two opposite half-line counts are summed, which counts the
    /// placed cell twice, so the sum must strictly exceed the winning
    /// length.
    pub fn check_for_win(&self, row: usize, col: usize) -> (won: bool)
        requires
            self@.wf(),
            row < self@.rows,
            col < self@.cols,
        ensures
            won == self@.win_at(row as int, col as int, self@.current_player),
    {
        // Check |
        if self.count_tokens(row, col, 1, 0) >= self.win_length {
            return true;
        }
        // Check /
        if Self::sum_exceeds(
            self.count_tokens(row, col, 1, -1),
            self.count_tokens(row, col, -1, 1),
            self.win_length,
        ) {
            return true;
        }
        // Check \
        if Self::sum_exceeds(
            self.count_tokens(row, col, 1, 1),
            self.count_tokens(row, col, -1, -1),
            self.win_length,
        ) {
            return true;
        }
        // Check -
        if Self::sum_exceeds(
            self.count_tokens(row, col, 0, -1),
            self.count_tokens(row, col, 0, 1),
            self.win_length,
        ) {
            return true;
        }
        false
    }

    /// Drops the current player's token into a 1-based column. The token
    /// falls to the lowest empty cell; the engine then reports a win, a
    /// tie on a full board, or that the game goes on. A rejected call
    /// (bad column, full column, or a finished game) leaves the state
    /// completely unmodified.
    pub fn place_token(&mut self, col: usize) -> (outcome: Result<
        PlacementResult,
        PlacementError,
    >)
        requires
            old(self)@.wf(),
        ensures
            final(self)@.wf(),
            outcome == old(self)@.place_outcome(col),
            final(self)@ == old(self)@.place_next(col),
            outcome is Err ==> final(self)@ == old(self)@,
    {
        if self.game_over {
            return Err(PlacementError::GameAlreadyOver);
        }
        if col < 1 || col > self.cols {
            return Err(PlacementError::InvalidColumn);
        }
        let c = col - 1;
        let ghost pre = self@;
        let mut i = self.rows;
        while i > 0
            invariant
                self@ == pre,
                pre == old(self)@,
                pre.wf(),
                !pre.game_over,
                1 <= col <= pre.cols,
                c == col - 1,
                i <= pre.rows,
                forall|r2: int| i <= r2 < pre.rows ==> pre.occupied(r2, c as int),
            decreases i,
        {
            i = i - 1;
            proof {
                assert(self@.grid[i as int] == self.grid@[i as int]@);
            }
            if self.grid[i][c].is_none() {
                proof {
                    assert(pre.is_landing_row(c as int, i as int));
                    assert(pre.landing_row(c as int) == i) by {
                        let r0 = choose|r0: int| pre.is_landing_row(c as int, r0);
                        crate::model::lemma_landing_row_unique(pre, c as int, r0, i as int);
                    }
                    crate::model::lemma_place_cell_wf(pre, i as int, c as int);
                }
                let me_player = self.current_player;
                self.grid[i][c] = Some(me_player);
                proof {
                    assert(self@.grid =~= pre.grid.update(
                        i as int,
                        pre.grid[i as int].update(c as int, Some(me_player)),
                    ));
                    assert(self@ =~= pre.with_cell(i as int, c as int, me_player));
                    assert(self@.wf());
                }
                let ghost placed = self@;
                proof {
                    assert(!pre.occupied(i as int, c as int));
                    assert(!pre.column_full(c as int));
                    assert(placed == pre.with_cell(i as int, c as int, pre.current_player));
                }
                if self.check_for_win(i, c) {
                    self.winner = Some(me_player);
                    self.game_over = true;
                    proof {
                        assert(placed.win_at(i as int, c as int, pre.current_player));
                        assert(pre.place_outcome(col) == Ok::<PlacementResult, PlacementError>(
                            PlacementResult::Ended(
                                GameEnd::Win(
                                    pre.current_player,
                                    (pre.current_turn + 1) as usize,
                                ),
                            ),
                        ));
                        assert(self@ =~= pre.place_next(col));
                        crate::model::lemma_place_next_wf(pre, col);
                    }
                    return Ok(
                        PlacementResult::Ended(GameEnd::Win(me_player, self.current_turn + 1)),
                    );
                }
                let new_turn = self.next_turn();
                if new_turn >= self.cols * self.rows {
                    self.game_over = true;
                    proof {
                        assert(self@ =~= pre.place_next(col));
                        crate::model::lemma_place_next_wf(pre, col);
                    }
                    return Ok(PlacementResult::Ended(GameEnd::Tie));
                }
                proof {
                    assert(self@ =~= pre.place_next(col));
                    crate::model::lemma_place_next_wf(pre, col);
                }
                return Ok(PlacementResult::Continue);
            }
        }
        proof {
            assert(pre.column_full(c as int));
        }
        Err(PlacementError::ColumnFull)
    }

    /// The grid height.
    pub fn rows(&self) -> (n: usize)
        ensures
            n == self@.rows,
    {
        self.rows
    }

    /// The grid width.
    pub fn cols(&self) -> (n: usize)
        ensures
            n == self@.cols,
    {
        self.cols
    }

    /// The number of players in the rotation.
    pub fn player_count(&self) -> (n: usize)
        ensures
            n == self@.players,
    {
        self.players
    }

    /// How many of the players are human; display metadata only.
    pub fn human_count(&self) -> (n: usize)
        ensures
            n == self@.humans,
    {
        self.humans
    }

    /// The length a contiguous same-player sequence must reach to win.
    pub fn win_length(&self) -> (n: usize)
        ensures
            n == self@.win_length,
    {
        self.win_length
    }

    /// Whose turn it is.
    pub fn current_player(&self) -> (p: Player)
        ensures
            p == self@.current_player,
    {
        self.current_player
    }

    /// The number of successful placements that did not end the game in
    /// a win.
    pub fn turn_count(&self) -> (n: usize)
        ensures
            n == self@.current_turn,
    {
        self.current_turn
    }

    /// The winner, if the game ended in a win.
    pub fn winner(&self) -> (w: Option<Player>)
        ensures
            w == self@.winner,
    {
        self.winner
    }

    /// Whether the game has ended, in a win or a tie.
    pub fn is_game_over(&self) -> (b: bool)
        ensures
            b == self@.game_over,
    {
        self.game_over
    }

    /// The content of one grid cell (0-based indices, row 0 at the top):
    /// the occupying player, or `None` for an empty cell.
    pub fn cell_at(&self, row: usize, col: usize) -> (cell: Option<Player>)
        requires
            self@.grid_wf(),
            row < self@.rows,
            col < self@.cols,
        ensures
            cell == self@.cell(row as int, col as int),
    {
        proof {
            assert(self@.grid[row as int] == self.grid@[row as int]@);
        }
        self.grid[row][col]
    }
}

} // verus!
