use minesweeper_core::CellStatus;
use minesweeper_core::CellValue;
use minesweeper_core::Game;
use minesweeper_core::GameStatus;

fn fixed_game() -> Game {
    // 5x5 grid with a single mine in the middle
    Game::new_with_mines(5, 5, &vec![(2, 2)])
}

fn count_mines(g: &Game) -> usize {
    let mut n = 0;
    for x in 0..g.columns {
        for y in 0..g.rows {
            if g.cell(x, y).value == CellValue::Mined {
                n += 1;
            }
        }
    }
    n
}

#[test]
fn fixed_board_has_one_mine_and_true_numbers() {
    let g = fixed_game();
    assert_eq!(count_mines(&g), 1);
    for x in 0..5usize {
        for y in 0..5usize {
            let c = g.cell(x, y);
            if x == 2 && y == 2 {
                assert_eq!(c.value, CellValue::Mined);
            } else {
                let near = x as i64 - 2;
                let near_y = y as i64 - 2;
                let adjacent = near.abs() <= 1 && near_y.abs() <= 1;
                let expected = if adjacent { 1 } else { 0 };
                assert_eq!(c.value, CellValue::Number(expected));
            }
            assert_eq!(c.status, CellStatus::Covered);
        }
    }
    assert_eq!(g.status, GameStatus::Playing);
    assert_eq!(g.revealed_count, 0);
    assert_eq!(g.flag_count, 0);
}

#[test]
fn reveal_cascade_wins_from_corner() {
    let mut g = fixed_game();
    g.reveal_multiple(0, 0);
    assert_eq!(g.status, GameStatus::Won);
    assert_eq!(g.revealed_count, 24);
    for x in 0..5usize {
        for y in 0..5usize {
            let c = g.cell(x, y);
            if x == 2 && y == 2 {
                assert_eq!(c.status, CellStatus::Covered);
            } else {
                assert_eq!(c.status, CellStatus::Revealed);
            }
        }
    }
}

#[test]
fn reveal_mine_first_move_loses_without_counting() {
    let mut g = fixed_game();
    g.reveal_multiple(2, 2);
    assert_eq!(g.status, GameStatus::Lost);
    assert_eq!(g.revealed_count, 0);
    assert_eq!(g.cell(2, 2).status, CellStatus::Revealed);
    // no other cell's status changed
    for x in 0..5usize {
        for y in 0..5usize {
            if !(x == 2 && y == 2) {
                assert_eq!(g.cell(x, y).status, CellStatus::Covered);
            }
        }
    }
}

#[test]
fn commands_after_game_end_change_nothing() {
    let mut g = fixed_game();
    g.reveal_multiple(2, 2);
    assert_eq!(g.status, GameStatus::Lost);
    g.reveal_multiple(0, 0);
    assert_eq!(g.status, GameStatus::Lost);
    assert_eq!(g.revealed_count, 0);
    assert_eq!(g.cell(0, 0).status, CellStatus::Covered);
    g.flag(0, 0);
    assert_eq!(g.cell(0, 0).status, CellStatus::Covered);
    assert_eq!(g.flag_count, 0);
}

#[test]
fn flag_toggles_and_respects_revealed_cells() {
    let mut g = fixed_game();
    g.flag(0, 0);
    assert_eq!(g.cell(0, 0).status, CellStatus::Flagged);
    assert_eq!(g.flag_count, 1);
    g.flag(0, 0);
    assert_eq!(g.cell(0, 0).status, CellStatus::Covered);
    assert_eq!(g.flag_count, 0);
    // a revealed cell can never be flagged
    g.reveal_multiple(1, 1);
    assert_eq!(g.cell(1, 1).status, CellStatus::Revealed);
    g.flag(1, 1);
    assert_eq!(g.cell(1, 1).status, CellStatus::Revealed);
    assert_eq!(g.flag_count, 0);
}

#[test]
fn flag_budget_is_capped_at_mine_count() {
    let mut g = fixed_game();
    assert_eq!(g.mine_count, 1);
    g.flag(0, 0);
    assert_eq!(g.flag_count, 1);
    // budget spent: one more flag is a no-op
    g.flag(4, 4);
    assert_eq!(g.flag_count, 1);
    assert_eq!(g.cell(4, 4).status, CellStatus::Covered);
    assert_eq!(g.cell(0, 0).status, CellStatus::Flagged);
    // unflagging frees the budget again
    g.flag(0, 0);
    assert_eq!(g.flag_count, 0);
    g.flag(4, 4);
    assert_eq!(g.cell(4, 4).status, CellStatus::Flagged);
    assert_eq!(g.remaining_mines(), 0);
}

#[test]
fn flagged_cell_blocks_reveal_and_cascade() {
    let mut g = fixed_game();
    g.flag(1, 1);
    // revealing a flagged cell is a no-op
    g.reveal_multiple(1, 1);
    assert_eq!(g.cell(1, 1).status, CellStatus::Flagged);
    assert_eq!(g.revealed_count, 0);
    // the cascade skips the flagged cell
    g.reveal_multiple(0, 0);
    assert_eq!(g.cell(1, 1).status, CellStatus::Flagged);
    assert_eq!(g.revealed_count, 23);
    assert_eq!(g.status, GameStatus::Playing);
    // unflag and reveal the last safe cell: the game is won
    g.flag(1, 1);
    g.reveal_multiple(1, 1);
    assert_eq!(g.status, GameStatus::Won);
    assert_eq!(g.revealed_count, 24);
}

#[test]
fn revealed_count_tracks_newly_revealed_cells() {
    let mut g = Game::new_with_mines(4, 4, &vec![(0, 0), (1, 0)]);
    // (3, 3) sits in the zero region away from both mines
    g.reveal_multiple(3, 3);
    let after_first = g.revealed_count;
    assert!(after_first > 0);
    // revealing an already revealed cell adds nothing
    g.reveal_multiple(3, 3);
    assert_eq!(g.revealed_count, after_first);
}

#[test]
fn random_games_place_exactly_the_requested_mines() {
    for _ in 0..10 {
        let g = Game::new(4, 6, 5);
        assert_eq!(g.rows, 4);
        assert_eq!(g.columns, 6);
        assert_eq!(g.mine_count, 5);
        assert_eq!(count_mines(&g), 5);
        assert_eq!(g.status, GameStatus::Playing);
        assert_eq!(g.revealed_count, 0);
        assert_eq!(g.flag_count, 0);
        assert_eq!(g.remaining_mines(), 5);
        for x in 0..6usize {
            for y in 0..4usize {
                assert_eq!(g.cell(x, y).status, CellStatus::Covered);
            }
        }
    }
}

#[test]
fn revealing_a_numbered_cell_uncovers_only_it() {
    let mut g = fixed_game();
    // (1, 1) borders the mine, so its number is 1: no cascade
    g.reveal_multiple(1, 1);
    assert_eq!(g.revealed_count, 1);
    assert_eq!(g.status, GameStatus::Playing);
    for x in 0..5usize {
        for y in 0..5usize {
            let expected = if x == 1 && y == 1 {
                CellStatus::Revealed
            } else {
                CellStatus::Covered
            };
            assert_eq!(g.cell(x, y).status, expected);
        }
    }
}
