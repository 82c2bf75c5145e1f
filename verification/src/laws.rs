//! Proved properties of the placement transition, stated over the model
//! in [`crate::model`]: rejected calls change nothing, turn rotation is
//! exactly cyclic, a placement fills exactly one cell of its column, and
//! the engine's local run-counting win check is equivalent to the
//! existence of a winning line through the placed token.

use crate::game::GameEnd;
use crate::game::PlacementError;
use crate::game::PlacementResult;
use crate::game::Player;
use crate::model::BoardView;
use crate::model::lemma_landing_row_exists;
use crate::model::lemma_place_next_wf;
use vstd::arithmetic::div_mod::lemma_add_mod_noop;
use vstd::arithmetic::div_mod::lemma_mod_bound;
use vstd::arithmetic::div_mod::lemma_small_mod;
use vstd::prelude::*;

verus! {

/// A column outside `1 ..= cols` is rejected with `InvalidColumn` and the
/// state is left completely unchanged — so an immediate retry with the
/// same column fails with the identical error, and the state is still
/// unchanged.
pub proof fn lemma_invalid_column_rejected(m: BoardView, col: usize)
    requires
        m.wf(),
        !m.game_over,
        !m.col_in_range(col),
    ensures
        m.place_outcome(col) == Err::<PlacementResult, PlacementError>(
            PlacementError::InvalidColumn,
        ),
        m.place_next(col) == m,
        m.place_next(col).place_outcome(col) == Err::<PlacementResult, PlacementError>(
            PlacementError::InvalidColumn,
        ),
        m.place_next(col).place_next(col) == m,
{
}

/// A full column is rejected with `ColumnFull` and the state is left
/// completely unchanged.
pub proof fn lemma_full_column_rejected(m: BoardView, col: usize)
    requires
        m.wf(),
        !m.game_over,
        m.col_in_range(col),
        m.column_full(col - 1),
    ensures
        m.place_outcome(col) == Err::<PlacementResult, PlacementError>(PlacementError::ColumnFull),
        m.place_next(col) == m,
{
}

/// Once the game is over, every placement is rejected with
/// `GameAlreadyOver` and the state never changes again.
pub proof fn lemma_game_over_rejected(m: BoardView, col: usize)
    requires
        m.wf(),
        m.game_over,
    ensures
        m.place_outcome(col) == Err::<PlacementResult, PlacementError>(
            PlacementError::GameAlreadyOver,
        ),
        m.place_next(col) == m,
{
}

/// The state after playing a sequence of columns, one placement each.
pub open spec fn play(m: BoardView, moves: Seq<usize>) -> BoardView
    decreases moves.len(),
{
    if moves.len() == 0 {
        m
    } else {
        play(m, moves.drop_last()).place_next(moves.last())
    }
}

/// Every placement of the sequence succeeded without ending the game.
pub open spec fn all_continue(m: BoardView, moves: Seq<usize>) -> bool
    decreases moves.len(),
{
    if moves.len() == 0 {
        true
    } else {
        &&& all_continue(m, moves.drop_last())
        &&& play(m, moves.drop_last()).place_outcome(moves.last()) == Ok::<
            PlacementResult,
            PlacementError,
        >(PlacementResult::Continue)
    }
}

/// Turn rotation is exactly cyclic: starting from a state whose current
/// player index equals its turn count modulo the player count — a fresh
/// board starts at 0 and 0 — a sequence of `k` successful non-ending
/// placements adds `k` to the turn count and leaves the current player
/// index at `turn count mod player count`.
pub proof fn lemma_turn_rotation(m: BoardView, moves: Seq<usize>)
    requires
        m.wf(),
        m.current_player.index == m.current_turn as int % (m.players as int),
        all_continue(m, moves),
    ensures
        play(m, moves).wf(),
        play(m, moves).players == m.players,
        play(m, moves).current_turn == m.current_turn + moves.len(),
        play(m, moves).current_player.index == (m.current_turn + moves.len()) as int % (
        m.players as int),
    decreases moves.len(),
{
    if moves.len() == 0 {
    } else {
        let prefix = moves.drop_last();
        let col = moves.last();
        lemma_turn_rotation(m, prefix);
        let mid = play(m, prefix);
        lemma_place_next_wf(mid, col);
        let p0 = m.players as int;
        let t_mid = m.current_turn as int + prefix.len() as int;
        assert(play(m, moves) == mid.place_next(col));
        assert(mid.place_outcome(col) == Ok::<PlacementResult, PlacementError>(
            PlacementResult::Continue,
        ));
        // The placement succeeded without a win, so the next state
        // advanced the rotation by one.
        let c = col - 1;
        lemma_landing_row_exists(mid, c);
        let next = mid.place_next(col);
        assert(next.current_turn == mid.current_turn + 1);
        assert(next.current_player.index == mid.next_player_index());
        // (x % p + 1) % p == (x + 1) % p
        lemma_mod_bound(t_mid, p0);
        if p0 == 1 {
            lemma_mod_bound(t_mid + 1, p0);
            lemma_mod_bound(t_mid % p0 + 1, p0);
        } else {
            lemma_small_mod(1nat, p0 as nat);
            lemma_add_mod_noop(t_mid, 1, p0);
        }
        assert((t_mid % p0 + 1) % p0 == (t_mid + 1) % p0);
    }
}

/// Every cell along a counted run holds the player's token, in bounds.
proof fn lemma_run_from_cells(m: BoardView, r: int, c: int, dr: int, dc: int, p: Player, fuel: nat)
    ensures
        forall|t: int|
            0 <= t < m.run_from(r, c, dr, dc, p, fuel) ==> m.in_bounds(r + t * dr, c + t * dc)
                && #[trigger] m.cell(r + t * dr, c + t * dc) == Some(p),
    decreases fuel,
{
    let n = m.run_from(r, c, dr, dc, p, fuel);
    if n > 0 {
        lemma_run_from_cells(m, r + dr, c + dc, dr, dc, p, (fuel - 1) as nat);
        assert forall|t: int| 0 <= t < n implies m.in_bounds(r + t * dr, c + t * dc)
            && #[trigger] m.cell(r + t * dr, c + t * dc) == Some(p) by {
            if t == 0 {
                assert(r + 0 * dr == r);
                assert(c + 0 * dc == c);
            } else {
                let t2 = t - 1;
                assert(0 <= t2 < m.run_from(r + dr, c + dc, dr, dc, p, (fuel - 1) as nat));
                assert(m.cell((r + dr) + t2 * dr, (c + dc) + t2 * dc) == Some(p));
                assert((r + dr) + t2 * dr == r + t * dr) by (nonlinear_arith)
                    requires
                        t2 == t - 1,
                ;
                assert((c + dc) + t2 * dc == c + t * dc) by (nonlinear_arith)
                    requires
                        t2 == t - 1,
                ;
            }
        }
    }
}

/// If the `k` cells starting at the anchor all hold the player's token,
/// the counter reaches at least `k`.
proof fn lemma_run_from_at_least(
    m: BoardView,
    r: int,
    c: int,
    dr: int,
    dc: int,
    p: Player,
    fuel: nat,
    k: int,
)
    requires
        0 <= k <= fuel,
        forall|t: int|
            0 <= t < k ==> m.in_bounds(r + t * dr, c + t * dc) && #[trigger] m.cell(
                r + t * dr,
                c + t * dc,
            ) == Some(p),
    ensures
        m.run_from(r, c, dr, dc, p, fuel) >= k,
    decreases k,
{
    if k > 0 {
        assert(m.cell(r + 0 * dr, c + 0 * dc) == Some(p));
        assert(r + 0 * dr == r);
        assert(c + 0 * dc == c);
        assert forall|t: int| 0 <= t < k - 1 implies m.in_bounds((r + dr) + t * dr, (c + dc) + t
            * dc) && #[trigger] m.cell((r + dr) + t * dr, (c + dc) + t * dc) == Some(p) by {
            let t1 = t + 1;
            assert(m.cell(r + t1 * dr, c + t1 * dc) == Some(p));
            assert((r + dr) + t * dr == r + t1 * dr) by (nonlinear_arith)
                requires
                    t1 == t + 1,
            ;
            assert((c + dc) + t * dc == c + t1 * dc) by (nonlinear_arith)
                requires
                    t1 == t + 1,
            ;
        }
        lemma_run_from_at_least(m, r + dr, c + dc, dr, dc, p, (fuel - 1) as nat, k - 1);
    }
}

/// On one bidirectional axis through an occupied anchor cell, the sum of
/// the engine's two half-line counts exceeds `win_length` exactly when a
/// winning window lies on that axis through the anchor.
proof fn lemma_axis_equiv(m: BoardView, r: int, c: int, p: Player, dr: int, dc: int)
    requires
        m.wf(),
        m.in_bounds(r, c),
        m.cell(r, c) == Some(p),
        -1 <= dr <= 1,
        -1 <= dc <= 1,
        !(dr == 0 && dc == 0),
    ensures
        (m.dir_count(r, c, dr, dc, p) + m.dir_count(r, c, -dr, -dc, p) > m.win_length)
            == m.axis_win_through(p, r, c, dr, dc),
{
    let fuel = m.run_fuel();
    let l = m.win_length as int;
    let npos = m.run_from(r + dr, c + dc, dr, dc, p, fuel) as int;
    let nneg = m.run_from(r + -dr, c + -dc, -dr, -dc, p, fuel) as int;
    assert(m.dir_count(r, c, dr, dc, p) == 1 + npos);
    assert(m.dir_count(r, c, -dr, -dc, p) == 1 + nneg);
    if m.dir_count(r, c, dr, dc, p) + m.dir_count(r, c, -dr, -dc, p) > l {
        lemma_run_from_cells(m, r + dr, c + dc, dr, dc, p, fuel);
        lemma_run_from_cells(m, r + -dr, c + -dc, -dr, -dc, p, fuel);
        assert(npos + nneg + 1 >= l);
        let a = if nneg >= l - 1 {
            -(l - 1)
        } else {
            -nneg
        };
        let b = a + l - 1;
        assert(a <= 0 <= b);
        assert forall|t: int| a <= t <= b implies m.in_bounds(r + t * dr, c + t * dc)
            && #[trigger] m.cell(r + t * dr, c + t * dc) == Some(p) by {
            if t == 0 {
                assert(r + 0 * dr == r);
                assert(c + 0 * dc == c);
            } else if t > 0 {
                let t2 = t - 1;
                assert(0 <= t2 < npos);
                assert(m.cell((r + dr) + t2 * dr, (c + dc) + t2 * dc) == Some(p));
                assert(m.in_bounds((r + dr) + t2 * dr, (c + dc) + t2 * dc));
                assert((r + dr) + t2 * dr == r + t * dr) by (nonlinear_arith)
                    requires
                        t2 == t - 1,
                ;
                assert((c + dc) + t2 * dc == c + t * dc) by (nonlinear_arith)
                    requires
                        t2 == t - 1,
                ;
            } else {
                let t2 = -t - 1;
                assert(0 <= t2 < nneg);
                assert(m.cell((r + -dr) + t2 * -dr, (c + -dc) + t2 * -dc) == Some(p));
                assert(m.in_bounds((r + -dr) + t2 * -dr, (c + -dc) + t2 * -dc));
                assert((r + -dr) + t2 * -dr == r + t * dr) by (nonlinear_arith)
                    requires
                        t2 == -t - 1,
                ;
                assert((c + -dc) + t2 * -dc == c + t * dc) by (nonlinear_arith)
                    requires
                        t2 == -t - 1,
                ;
            }
        }
        assert(m.run_cells(p, r, c, dr, dc, a, b));
    }
    if m.axis_win_through(p, r, c, dr, dc) {
        let (a, b) = choose|a: int, b: int|
            a <= 0 <= b && b - a + 1 == l && m.run_cells(p, r, c, dr, dc, a, b);
        assert(b <= l - 1 && -a <= l - 1);
        assert(l - 1 < fuel);
        assert forall|t: int| 0 <= t < b implies m.in_bounds((r + dr) + t * dr, (c + dc) + t * dc)
            && #[trigger] m.cell((r + dr) + t * dr, (c + dc) + t * dc) == Some(p) by {
            let t1 = t + 1;
            assert(a <= t1 <= b);
            assert(m.cell(r + t1 * dr, c + t1 * dc) == Some(p));
            assert(m.in_bounds(r + t1 * dr, c + t1 * dc));
            assert((r + dr) + t * dr == r + t1 * dr) by (nonlinear_arith)
                requires
                    t1 == t + 1,
            ;
            assert((c + dc) + t * dc == c + t1 * dc) by (nonlinear_arith)
                requires
                    t1 == t + 1,
            ;
        }
        lemma_run_from_at_least(m, r + dr, c + dc, dr, dc, p, fuel, b);
        assert forall|t: int| 0 <= t < -a implies m.in_bounds((r + -dr) + t * -dr, (c + -dc) + t
            * -dc) && #[trigger] m.cell((r + -dr) + t * -dr, (c + -dc) + t * -dc) == Some(p) by {
            let t1 = -(t + 1);
            assert(a <= t1 <= b);
            assert(m.cell(r + t1 * dr, c + t1 * dc) == Some(p));
            assert(m.in_bounds(r + t1 * dr, c + t1 * dc));
            assert((r + -dr) + t * -dr == r + t1 * dr) by (nonlinear_arith)
                requires
                    t1 == -(t + 1),
            ;
            assert((c + -dc) + t * -dc == c + t1 * dc) by (nonlinear_arith)
                requires
                    t1 == -(t + 1),
            ;
        }
        lemma_run_from_at_least(m, r + -dr, c + -dc, -dr, -dc, p, fuel, -a);
        assert(npos >= b && nneg >= -a);
        assert((1 + npos) + (1 + nneg) > l);
    }
}

/// Down the vertical axis through a just-placed token (nothing sits
/// above it), the engine's downward-only count reaches `win_length`
/// exactly when a winning vertical window runs through the cell.
proof fn lemma_vertical_equiv(m: BoardView, r: int, c: int, p: Player)
    requires
        m.wf(),
        m.in_bounds(r, c),
        m.cell(r, c) == Some(p),
        forall|r2: int| 0 <= r2 < r ==> m.cell(r2, c) is None,
    ensures
        (m.dir_count(r, c, 1, 0, p) >= m.win_length) == m.axis_win_through(p, r, c, 1, 0),
{
    let fuel = m.run_fuel();
    let l = m.win_length as int;
    let npos = m.run_from(r + 1, c + 0, 1, 0, p, fuel) as int;
    assert(m.dir_count(r, c, 1, 0, p) == 1 + npos);
    if m.dir_count(r, c, 1, 0, p) >= l {
        lemma_run_from_cells(m, r + 1, c + 0, 1, 0, p, fuel);
        let a = 0int;
        let b = l - 1;
        assert forall|t: int| a <= t <= b implies m.in_bounds(r + t * 1, c + t * 0)
            && #[trigger] m.cell(r + t * 1, c + t * 0) == Some(p) by {
            if t == 0 {
            } else {
                let t2 = t - 1;
                assert(0 <= t2 < npos);
                assert(m.cell((r + 1) + t2 * 1, (c + 0) + t2 * 0) == Some(p));
                assert(m.in_bounds((r + 1) + t2 * 1, (c + 0) + t2 * 0));
            }
        }
        assert(m.run_cells(p, r, c, 1, 0, a, b));
    }
    if m.axis_win_through(p, r, c, 1, 0) {
        let (a, b) = choose|a: int, b: int|
            a <= 0 <= b && b - a + 1 == l && m.run_cells(p, r, c, 1, 0, a, b);
        if a < 0 {
            // A window cell would sit above the placed token, where the
            // column is still empty.
            assert(m.cell(r + a * 1, c + a * 0) == Some(p));
            assert(m.in_bounds(r + a * 1, c + a * 0));
            assert(m.cell(r + a, c) is None);
            assert(false);
        }
        assert(a == 0 && b == l - 1);
        assert forall|t: int| 0 <= t < b implies m.in_bounds((r + 1) + t * 1, (c + 0) + t * 0)
            && #[trigger] m.cell((r + 1) + t * 1, (c + 0) + t * 0) == Some(p) by {
            let t1 = t + 1;
            assert(a <= t1 <= b);
            assert(m.cell(r + t1 * 1, c + t1 * 0) == Some(p));
            assert(m.in_bounds(r + t1 * 1, c + t1 * 0));
        }
        assert(b <= fuel);
        lemma_run_from_at_least(m, r + 1, c + 0, 1, 0, p, fuel, b);
        assert(1 + npos >= l);
    }
}

/// The engine's four-axis run-counting check at a just-placed token —
/// nothing above it in its column — holds exactly when a winning line of
/// `win_length` contiguous tokens of the player passes through the cell.
pub proof fn lemma_win_at_iff_winning_line(m: BoardView, r: int, c: int, p: Player)
    requires
        m.wf(),
        m.in_bounds(r, c),
        m.cell(r, c) == Some(p),
        forall|r2: int| 0 <= r2 < r ==> m.cell(r2, c) is None,
    ensures
        m.win_at(r, c, p) == m.winning_line_through(p, r, c),
{
    lemma_vertical_equiv(m, r, c, p);
    lemma_axis_equiv(m, r, c, p, 1, 1);
    lemma_axis_equiv(m, r, c, p, 1, -1);
    lemma_axis_equiv(m, r, c, p, 0, 1);
}

/// Under gravity, an occupied cell keeps every cell below it occupied.
proof fn lemma_gravity_chain(m: BoardView, c: int, r_hi: int, r_lo: int)
    requires
        m.gravity_ok(),
        0 <= c < m.cols,
        0 <= r_hi <= r_lo < m.rows,
        m.occupied(r_hi, c),
    ensures
        m.occupied(r_lo, c),
    decreases r_lo - r_hi,
{
    if r_hi < r_lo {
        assert(m.occupied(r_hi + 1, c));
        lemma_gravity_chain(m, c, r_hi + 1, r_lo);
    }
}

/// Above an empty cell the whole column is empty.
proof fn lemma_column_empty_above(m: BoardView, c: int, r: int)
    requires
        m.gravity_ok(),
        0 <= c < m.cols,
        0 <= r < m.rows,
        !m.occupied(r, c),
    ensures
        forall|r2: int| 0 <= r2 < r ==> m.cell(r2, c) is None,
{
    assert forall|r2: int| 0 <= r2 < r implies m.cell(r2, c) is None by {
        if m.occupied(r2, c) {
            lemma_gravity_chain(m, c, r2, r);
        }
    }
}

/// A successful placement reports a win — with the current player and
/// the 1-based turn number — exactly when a winning line of the current
/// player's tokens passes through the cell the token fell into.
pub proof fn lemma_win_reported_iff_line(m: BoardView, col: usize)
    requires
        m.wf(),
        m.place_outcome(col) is Ok,
    ensures
        ({
            let c = col - 1;
            let r = m.landing_row(c);
            let placed = m.with_cell(r, c, m.current_player);
            (m.place_outcome(col) == Ok::<PlacementResult, PlacementError>(
                PlacementResult::Ended(
                    GameEnd::Win(m.current_player, (m.current_turn + 1) as usize),
                ),
            )) == placed.winning_line_through(m.current_player, r, c)
        }),
{
    let c = col - 1;
    lemma_landing_row_exists(m, c);
    let r = m.landing_row(c);
    crate::model::lemma_place_cell_wf(m, r, c);
    let placed = m.with_cell(r, c, m.current_player);
    lemma_column_empty_above(m, c, r);
    assert forall|r2: int| 0 <= r2 < r implies placed.cell(r2, c) is None by {
        assert(placed.cell(r2, c) == m.cell(r2, c));
    }
    assert(placed.cell(r, c) == Some(m.current_player));
    lemma_win_at_iff_winning_line(placed, r, c, m.current_player);
}

/// The number of empty cells in column `c` among rows `0 .. upto`.
pub open spec fn empty_in_column_upto(m: BoardView, c: int, upto: int) -> nat
    decreases upto,
{
    if upto <= 0 {
        0
    } else {
        empty_in_column_upto(m, c, upto - 1) + if m.occupied(upto - 1, c) {
            0nat
        } else {
            1nat
        }
    }
}

/// The number of empty cells in column `c`.
pub open spec fn empty_in_column(m: BoardView, c: int) -> nat {
    empty_in_column_upto(m, c, m.rows as int)
}

proof fn lemma_empty_upto_zero(m: BoardView, c: int, upto: int)
    ensures
        (empty_in_column_upto(m, c, upto) == 0) <==> (forall|r: int|
            0 <= r < upto ==> m.occupied(r, c)),
    decreases upto,
{
    if upto > 0 {
        lemma_empty_upto_zero(m, c, upto - 1);
    }
}

/// A column has no empty cell left exactly when its empty-cell count is
/// zero.
pub proof fn lemma_column_full_iff_no_empty(m: BoardView, c: int)
    ensures
        (empty_in_column(m, c) == 0) <==> m.column_full(c),
{
    lemma_empty_upto_zero(m, c, m.rows as int);
}

proof fn lemma_empty_upto_one_filled(m: BoardView, w: BoardView, c: int, r: int, upto: int)
    requires
        0 <= r,
        !m.occupied(r, c),
        w.occupied(r, c),
        forall|r2: int| 0 <= r2 < upto && r2 != r ==> m.cell(r2, c) == w.cell(r2, c),
    ensures
        r < upto ==> empty_in_column_upto(w, c, upto) + 1 == empty_in_column_upto(m, c, upto),
        r >= upto ==> empty_in_column_upto(w, c, upto) == empty_in_column_upto(m, c, upto),
    decreases upto,
{
    if upto > 0 {
        lemma_empty_upto_one_filled(m, w, c, r, upto - 1);
    }
}

/// A successful placement fills exactly one cell: the landing cell of
/// the chosen column becomes the current player's token, every other
/// cell is untouched, and the column's empty-cell count drops by exactly
/// one. Filling never skips and never un-fills: `rows` successful
/// placements into one column leave it full, and a full column is then
/// rejected (`lemma_full_column_rejected`).
pub proof fn lemma_place_fills_one_cell(m: BoardView, col: usize)
    requires
        m.wf(),
        m.place_outcome(col) is Ok,
    ensures
        ({
            let c = col - 1;
            let r = m.landing_row(c);
            let w = m.place_next(col);
            &&& m.is_landing_row(c, r)
            &&& w.cell(r, c) == Some(m.current_player)
            &&& forall|r2: int, c2: int|
                m.in_bounds(r2, c2) && !(r2 == r && c2 == c) ==> w.cell(r2, c2) == m.cell(r2, c2)
            &&& empty_in_column(w, c) + 1 == empty_in_column(m, c)
        }),
{
    let c = col - 1;
    lemma_landing_row_exists(m, c);
    let r = m.landing_row(c);
    let w = m.place_next(col);
    assert(w.grid == m.with_cell(r, c, m.current_player).grid);
    assert(w.cell(r, c) == Some(m.current_player));
    assert forall|r2: int, c2: int|
        m.in_bounds(r2, c2) && !(r2 == r && c2 == c) implies w.cell(r2, c2) == m.cell(
        r2,
        c2,
    ) by {}
    assert forall|r2: int| 0 <= r2 < m.rows && r2 != r implies m.cell(r2, c) == w.cell(
        r2,
        c,
    ) by {}
    lemma_empty_upto_one_filled(m, w, c, r, m.rows as int);
}

/// The number of empty cells in columns `0 .. cupto`.
pub open spec fn empty_in_columns_upto(m: BoardView, cupto: int) -> nat
    decreases cupto,
{
    if cupto <= 0 {
        0
    } else {
        empty_in_columns_upto(m, cupto - 1) + empty_in_column(m, cupto - 1)
    }
}

/// The number of empty cells on the whole board.
pub open spec fn empty_total(m: BoardView) -> nat {
    empty_in_columns_upto(m, m.cols as int)
}

/// While nobody has won, every cell is either one of the turns already
/// played or still empty.
pub open spec fn turn_matches_board(m: BoardView) -> bool {
    m.current_turn + empty_total(m) == m.rows * m.cols
}

proof fn lemma_empty_upto_congruent(m: BoardView, w: BoardView, c: int, upto: int)
    requires
        forall|r2: int| 0 <= r2 < upto ==> m.cell(r2, c) == w.cell(r2, c),
    ensures
        empty_in_column_upto(m, c, upto) == empty_in_column_upto(w, c, upto),
    decreases upto,
{
    if upto > 0 {
        lemma_empty_upto_congruent(m, w, c, upto - 1);
    }
}

proof fn lemma_empty_columns_drop(m: BoardView, w: BoardView, c: int, cupto: int)
    requires
        0 <= c,
        empty_in_column(w, c) + 1 == empty_in_column(m, c),
        forall|c2: int| 0 <= c2 < cupto && c2 != c ==> empty_in_column(w, c2) == empty_in_column(m, c2),
    ensures
        c < cupto ==> empty_in_columns_upto(w, cupto) + 1 == empty_in_columns_upto(m, cupto),
        c >= cupto ==> empty_in_columns_upto(w, cupto) == empty_in_columns_upto(m, cupto),
    decreases cupto,
{
    if cupto > 0 {
        lemma_empty_columns_drop(m, w, c, cupto - 1);
    }
}

/// A successful placement leaves the board with exactly one empty cell
/// fewer.
pub proof fn lemma_place_decrements_empty_total(m: BoardView, col: usize)
    requires
        m.wf(),
        m.place_outcome(col) is Ok,
    ensures
        empty_total(m.place_next(col)) + 1 == empty_total(m),
{
    let c = col - 1;
    let w = m.place_next(col);
    lemma_place_fills_one_cell(m, col);
    let r = m.landing_row(c);
    assert forall|c2: int| 0 <= c2 < m.cols && c2 != c implies empty_in_column(w, c2)
        == empty_in_column(m, c2) by {
        assert forall|r2: int| 0 <= r2 < m.rows implies m.cell(r2, c2) == w.cell(r2, c2) by {
            assert(m.in_bounds(r2, c2));
        }
        lemma_empty_upto_congruent(m, w, c2, m.rows as int);
    }
    lemma_empty_columns_drop(m, w, c, m.cols as int);
}

proof fn lemma_empty_upto_all_empty(m: BoardView, c: int, upto: int)
    requires
        0 <= upto,
        forall|r2: int| 0 <= r2 < upto ==> m.cell(r2, c) is None,
    ensures
        empty_in_column_upto(m, c, upto) == upto,
    decreases upto,
{
    if upto > 0 {
        lemma_empty_upto_all_empty(m, c, upto - 1);
    }
}

proof fn lemma_empty_columns_uniform(m: BoardView, cupto: int)
    requires
        0 <= cupto,
        forall|c2: int| 0 <= c2 < cupto ==> empty_in_column(m, c2) == m.rows,
    ensures
        empty_in_columns_upto(m, cupto) == cupto * m.rows,
    decreases cupto,
{
    if cupto > 0 {
        lemma_empty_columns_uniform(m, cupto - 1);
        let rows = m.rows as int;
        assert(cupto * rows == (cupto - 1) * rows + rows) by (nonlinear_arith);
        assert(empty_in_columns_upto(m, cupto) == (cupto - 1) * rows + rows);
    } else {
        let rows = m.rows as int;
        assert(cupto * rows == 0) by (nonlinear_arith)
            requires
                cupto == 0,
        ;
    }
}

/// On a board with no tokens and no turns played — a fresh board — the
/// turn count matches the empty cells.
pub proof fn lemma_turn_matches_board_initial(m: BoardView)
    requires
        m.current_turn == 0,
        forall|r2: int, c2: int| m.in_bounds(r2, c2) ==> m.cell(r2, c2) is None,
    ensures
        turn_matches_board(m),
{
    assert forall|c2: int| 0 <= c2 < m.cols implies empty_in_column(m, c2) == m.rows by {
        assert forall|r2: int| 0 <= r2 < m.rows implies m.cell(r2, c2) is None by {
            assert(m.in_bounds(r2, c2));
        }
        lemma_empty_upto_all_empty(m, c2, m.rows as int);
    }
    lemma_empty_columns_uniform(m, m.cols as int);
    assert((m.cols as int) * m.rows == m.rows * m.cols) by (nonlinear_arith);
}

/// Each successful placement that does not end the game in a win plays
/// one turn and fills one cell, so the match between turns and empty
/// cells is preserved. A winning placement freezes the board instead.
pub proof fn lemma_turn_matches_board_preserved(m: BoardView, col: usize)
    requires
        m.wf(),
        turn_matches_board(m),
        m.place_outcome(col) is Ok,
        m.place_outcome(col) != Ok::<PlacementResult, PlacementError>(
            PlacementResult::Ended(
                GameEnd::Win(m.current_player, (m.current_turn + 1) as usize),
            ),
        ),
    ensures
        turn_matches_board(m.place_next(col)),
{
    lemma_place_decrements_empty_total(m, col);
    assert(m.place_next(col).current_turn == m.current_turn + 1);
}

proof fn lemma_empty_columns_zero(m: BoardView, cupto: int)
    requires
        empty_in_columns_upto(m, cupto) == 0,
    ensures
        forall|c2: int| 0 <= c2 < cupto ==> empty_in_column(m, c2) == 0,
    decreases cupto,
{
    if cupto > 0 {
        lemma_empty_columns_zero(m, cupto - 1);
    }
}

/// A tie is reported exactly when a non-winning placement fills the last
/// empty cell of the board: afterwards every column is full. When the
/// game goes on instead, empty cells remain.
pub proof fn lemma_tie_iff_board_full(m: BoardView, col: usize)
    requires
        m.wf(),
        turn_matches_board(m),
        m.place_outcome(col) is Ok,
    ensures
        m.place_outcome(col) == Ok::<PlacementResult, PlacementError>(
            PlacementResult::Ended(GameEnd::Tie),
        ) ==> forall|c2: int| 0 <= c2 < m.cols ==> m.place_next(col).column_full(c2),
        m.place_outcome(col) == Ok::<PlacementResult, PlacementError>(PlacementResult::Continue)
            ==> empty_total(m.place_next(col)) > 0,
{
    let w = m.place_next(col);
    lemma_place_decrements_empty_total(m, col);
    if m.place_outcome(col) == Ok::<PlacementResult, PlacementError>(
        PlacementResult::Ended(GameEnd::Tie),
    ) {
        // The tie test `current_turn + 1 >= rows * cols` together with
        // the turn/empty match pins the empty count to exactly one
        // before the placement, zero after.
        assert(empty_total(m) == 1);
        assert(empty_total(w) == 0);
        lemma_empty_columns_zero(w, w.cols as int);
        assert forall|c2: int| 0 <= c2 < m.cols implies w.column_full(c2) by {
            lemma_column_full_iff_no_empty(w, c2);
        }
    }
}

/// Repeatedly dropping tokens into one column, as long as each placement
/// succeeds without ending the game, empties it one cell per drop:
/// `k` such placements leave `k` fewer empty cells in the column.
pub proof fn lemma_fill_column(m: BoardView, col: usize, moves: Seq<usize>)
    requires
        m.wf(),
        !m.game_over,
        m.col_in_range(col),
        all_continue(m, moves),
        forall|i: int| 0 <= i < moves.len() ==> moves[i] == col,
    ensures
        play(m, moves).wf(),
        !play(m, moves).game_over,
        play(m, moves).cols == m.cols,
        play(m, moves).rows == m.rows,
        empty_in_column(play(m, moves), col - 1) + moves.len() == empty_in_column(m, col - 1),
    decreases moves.len(),
{
    if moves.len() > 0 {
        let prefix = moves.drop_last();
        assert(forall|i: int| 0 <= i < prefix.len() ==> prefix[i] == col);
        lemma_fill_column(m, col, prefix);
        let mid = play(m, prefix);
        assert(moves.last() == col);
        lemma_place_next_wf(mid, col);
        lemma_place_fills_one_cell(mid, col);
        // The rows of the column are untouched outside the landing cell,
        // so the two empty-cell counts line up.
        assert(empty_in_column(mid.place_next(col), col - 1) + 1 == empty_in_column(
            mid,
            col - 1,
        ));
    }
}

/// Filling a column — one successful non-ending placement per empty cell
/// it had — leaves it full, and one more placement into it is rejected
/// with `ColumnFull`.
pub proof fn lemma_filled_column_rejected(m: BoardView, col: usize, moves: Seq<usize>)
    requires
        m.wf(),
        !m.game_over,
        m.col_in_range(col),
        all_continue(m, moves),
        forall|i: int| 0 <= i < moves.len() ==> moves[i] == col,
        moves.len() == empty_in_column(m, col - 1),
    ensures
        play(m, moves).place_outcome(col) == Err::<PlacementResult, PlacementError>(
            PlacementError::ColumnFull,
        ),
        play(m, moves).place_next(col) == play(m, moves),
{
    lemma_fill_column(m, col, moves);
    let w = play(m, moves);
    lemma_column_full_iff_no_empty(w, col - 1);
    lemma_full_column_rejected(w, col);
}

} // verus!

