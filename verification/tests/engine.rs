use connect_n::GameEnd;
use connect_n::GameState;
use connect_n::PlacementError;
use connect_n::PlacementResult;
use connect_n::Player;

/// Everything a renderer could observe about a game, for whole-state
/// comparisons.
fn snapshot(game: &GameState) -> (Vec<Option<Player>>, usize, usize, usize, Player, usize, Option<Player>, bool) {
    let mut cells = Vec::new();
    for r in 0..game.rows() {
        for c in 0..game.cols() {
            cells.push(game.cell_at(r, c));
        }
    }
    (
        cells,
        game.rows(),
        game.cols(),
        game.player_count(),
        game.current_player(),
        game.turn_count(),
        game.winner(),
        game.is_game_over(),
    )
}

#[test]
fn new_board_is_empty_and_at_turn_zero() {
    let game = GameState::new_board(6, 7, 2, 1, 4);
    assert_eq!(game.rows(), 6);
    assert_eq!(game.cols(), 7);
    assert_eq!(game.player_count(), 2);
    assert_eq!(game.human_count(), 1);
    assert_eq!(game.win_length(), 4);
    assert_eq!(game.current_player().player_index(), 0);
    assert_eq!(game.turn_count(), 0);
    assert_eq!(game.winner(), None);
    assert!(!game.is_game_over());
    for r in 0..6 {
        for c in 0..7 {
            assert_eq!(game.cell_at(r, c), None);
        }
    }
}

#[test]
fn player_index_and_next_player() {
    let p = Player { index: 0 };
    assert_eq!(p.player_index(), 0);
    assert_eq!(p.next_player().player_index(), 1);
    let q = Player { index: 7 };
    assert_eq!(q.next_player().player_index(), 8);
}

#[test]
fn next_turn_advances_and_wraps() {
    let mut game = GameState::new_board(3, 3, 2, 1, 2);
    assert_eq!(game.next_turn(), 1);
    assert_eq!(game.current_player().player_index(), 1);
    assert_eq!(game.next_turn(), 2);
    assert_eq!(game.current_player().player_index(), 0);
    assert_eq!(game.turn_count(), 2);
}

#[test]
fn column_fills_then_one_more_is_rejected() {
    // A 6-row board: six drops fill a column, the seventh is refused.
    let mut game = GameState::new_board(6, 7, 2, 2, 4);
    for _ in 0..6 {
        assert_eq!(game.place_token(3), Ok(PlacementResult::Continue));
    }
    let before = snapshot(&game);
    assert_eq!(game.place_token(3), Err(PlacementError::ColumnFull));
    assert_eq!(snapshot(&game), before);
}

#[test]
fn invalid_column_rejected_and_state_unchanged() {
    let mut game = GameState::new_board(6, 7, 2, 2, 4);
    let before = snapshot(&game);
    assert_eq!(game.place_token(0), Err(PlacementError::InvalidColumn));
    assert_eq!(snapshot(&game), before);
    assert_eq!(game.place_token(8), Err(PlacementError::InvalidColumn));
    assert_eq!(snapshot(&game), before);
}

#[test]
fn failed_calls_are_idempotent() {
    // Two identical out-of-range calls in a row: the same error twice and
    // an unchanged snapshot both times.
    let mut game = GameState::new_board(5, 4, 3, 0, 3);
    let before = snapshot(&game);
    let first = game.place_token(99);
    assert_eq!(first, Err(PlacementError::InvalidColumn));
    assert_eq!(snapshot(&game), before);
    let second = game.place_token(99);
    assert_eq!(second, first);
    assert_eq!(snapshot(&game), before);
}

#[test]
fn rotation_is_cyclic_over_three_players() {
    // After k successful non-ending placements the current player index
    // is k mod 3.
    let mut game = GameState::new_board(5, 5, 3, 1, 3);
    let columns = [1, 2, 3, 1, 2, 3];
    for (k, col) in columns.iter().enumerate() {
        assert_eq!(game.current_player().player_index(), k % 3);
        assert_eq!(game.turn_count(), k);
        assert_eq!(game.place_token(*col), Ok(PlacementResult::Continue));
    }
    assert_eq!(game.current_player().player_index(), 6 % 3);
    assert_eq!(game.turn_count(), 6);
}

#[test]
fn vertical_win_on_fourth_consecutive_drop() {
    // A single player dropping four tokens into column 3 wins on the
    // fourth placement, reported as turn 4.
    let mut game = GameState::new_board(6, 7, 1, 1, 4);
    let player_a = game.current_player();
    for _ in 0..3 {
        assert_eq!(game.place_token(3), Ok(PlacementResult::Continue));
    }
    assert_eq!(
        game.place_token(3),
        Ok(PlacementResult::Ended(GameEnd::Win(player_a, 4)))
    );
    assert!(game.is_game_over());
    assert_eq!(game.winner(), Some(player_a));
}

#[test]
fn gapped_bottom_row_is_no_win_but_contiguous_row_wins() {
    // First: A on columns 1,3,5,7 and B on 2,4,6 of the bottom row — a
    // gapped row, no win anywhere.
    let mut game = GameState::new_board(6, 7, 2, 2, 4);
    for col in 1..=7 {
        assert_eq!(game.place_token(col), Ok(PlacementResult::Continue));
    }
    assert!(!game.is_game_over());
    // Then: genuinely contiguous bottom-row tokens do win. A stacks
    // columns 1..4 with B above, and completes the row on the seventh
    // placement.
    let mut game = GameState::new_board(6, 7, 2, 2, 4);
    let player_a = game.current_player();
    for col in 1..=3 {
        assert_eq!(game.place_token(col), Ok(PlacementResult::Continue)); // A bottom row
        assert_eq!(game.place_token(col), Ok(PlacementResult::Continue)); // B on top
    }
    assert_eq!(
        game.place_token(4),
        Ok(PlacementResult::Ended(GameEnd::Win(player_a, 7)))
    );
    assert_eq!(game.winner(), Some(player_a));
}

#[test]
fn diagonal_staircase_win() {
    // A builds the rising diagonal (bottom of column 1 up to height 4 of
    // column 4) over B's supporting under-fills; the eleventh placement
    // completes it.
    let mut game = GameState::new_board(6, 7, 2, 2, 4);
    let player_a = game.current_player();
    let moves = [1, 2, 2, 3, 4, 3, 3, 4, 5, 4];
    for col in moves {
        assert_eq!(game.place_token(col), Ok(PlacementResult::Continue));
    }
    assert_eq!(
        game.place_token(4),
        Ok(PlacementResult::Ended(GameEnd::Win(player_a, 11)))
    );
    assert_eq!(game.winner(), Some(player_a));
    assert!(game.is_game_over());
}

#[test]
fn full_board_without_sequence_is_a_tie() {
    // Four players on a 2x2 board with winning length 2: every cell gets
    // a different owner, so the last placement fills the board with no
    // sequence anywhere.
    let mut game = GameState::new_board(2, 2, 4, 0, 2);
    assert_eq!(game.place_token(1), Ok(PlacementResult::Continue));
    assert_eq!(game.place_token(2), Ok(PlacementResult::Continue));
    assert_eq!(game.place_token(1), Ok(PlacementResult::Continue));
    assert_eq!(game.place_token(2), Ok(PlacementResult::Ended(GameEnd::Tie)));
    assert!(game.is_game_over());
    assert_eq!(game.winner(), None);
    assert_eq!(game.turn_count(), 4);
}

#[test]
fn placement_after_game_over_is_rejected() {
    let mut game = GameState::new_board(1, 1, 1, 1, 1);
    let player_a = game.current_player();
    assert_eq!(
        game.place_token(1),
        Ok(PlacementResult::Ended(GameEnd::Win(player_a, 1)))
    );
    let before = snapshot(&game);
    assert_eq!(game.place_token(1), Err(PlacementError::GameAlreadyOver));
    // The game-over check comes before column validation.
    assert_eq!(game.place_token(99), Err(PlacementError::GameAlreadyOver));
    assert_eq!(snapshot(&game), before);
}

#[test]
fn count_tokens_and_check_for_win_directly() {
    // A stacks column 1 twice, B stacks column 4 twice; it is A's turn.
    let mut game = GameState::new_board(4, 4, 2, 2, 3);
    assert_eq!(game.place_token(1), Ok(PlacementResult::Continue));
    assert_eq!(game.place_token(4), Ok(PlacementResult::Continue));
    assert_eq!(game.place_token(1), Ok(PlacementResult::Continue));
    assert_eq!(game.place_token(4), Ok(PlacementResult::Continue));
    assert_eq!(game.current_player().player_index(), 0);
    // Downward from A's upper token: the anchor plus one A below it.
    assert_eq!(game.count_tokens(2, 0, 1, 0), 2);
    // Upward from A's lower token: the anchor plus one A above it.
    assert_eq!(game.count_tokens(3, 0, -1, 0), 2);
    // Rightward from A's lower token: the neighbor is empty.
    assert_eq!(game.count_tokens(3, 0, 0, 1), 1);
    // Two in a column is short of the winning length of three.
    assert!(!game.check_for_win(2, 0));
    // B's tokens never count for A.
    assert_eq!(game.count_tokens(3, 3, -1, 0), 1);
}

#[test]
fn column_full_error_leaves_turn_with_same_player() {
    // A full-column rejection does not advance the rotation: the same
    // player is prompted again.
    let mut game = GameState::new_board(2, 3, 2, 2, 2);
    assert_eq!(game.place_token(1), Ok(PlacementResult::Continue));
    assert_eq!(game.place_token(1), Ok(PlacementResult::Continue));
    let mover = game.current_player();
    assert_eq!(game.place_token(1), Err(PlacementError::ColumnFull));
    assert_eq!(game.current_player(), mover);
    assert_eq!(game.turn_count(), 2);
}
