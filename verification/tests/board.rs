//! The rules of the game.

use minesweeper_core::board::neighbours;
use minesweeper_core::{Cell, CellContent, CellState, GameState, Minesweeper};

/// A board with the given mines, drawn as the places in the list of free cells.
fn dealt(width: usize, height: usize, start: (usize, usize), picks: &[usize]) -> Minesweeper {
    let mut game = Minesweeper::new(width, height, picks.len());
    game.place_mines(start.0, start.1, &picks.to_vec());
    game
}

fn mines(game: &Minesweeper) -> Vec<(usize, usize)> {
    let mut list = Vec::new();
    for y in 0..game.height {
        for x in 0..game.width {
            if game.grid[y][x].content == CellContent::Mine {
                list.push((x, y));
            }
        }
    }
    list
}

#[test]
fn a_new_board_is_hidden_and_empty() {
    let game = Minesweeper::new(3, 2, 1);
    assert_eq!((game.width, game.height, game.mines_count), (3, 2, 1));
    assert_eq!(game.state, GameState::Playing);
    assert!(!game.mines_generated);
    assert_eq!(game.grid.len(), 2);
    for row in &game.grid {
        assert_eq!(row.len(), 3);
        for cell in row {
            assert_eq!(cell, &Cell::new());
        }
    }
}

#[test]
fn neighbours_are_listed_row_by_row() {
    assert_eq!(neighbours(0, 0, 3, 3), vec![(1, 0), (0, 1), (1, 1)]);
    assert_eq!(
        neighbours(1, 1, 3, 3),
        vec![(0, 0), (1, 0), (2, 0), (0, 1), (2, 1), (0, 2), (1, 2), (2, 2)]
    );
    assert_eq!(neighbours(0, 0, 1, 1), vec![]);
}

#[test]
fn draws_put_mines_and_numbers() {
    // Free cells are all but the clicked one; a drawn cell's place is taken by the last.
    let game = dealt(3, 2, (0, 0), &[0, 0]);
    assert_eq!(mines(&game), vec![(1, 0), (2, 1)]);
    assert_eq!(game.grid[0][0].content, CellContent::Empty(1));
    assert_eq!(game.grid[0][2].content, CellContent::Empty(2));
    assert_eq!(game.grid[1][1].content, CellContent::Empty(2));
    assert!(game.mines_generated);
}

#[test]
fn the_first_click_is_safe_and_deals_all_mines() {
    for _ in 0..50 {
        let mut game = Minesweeper::new(4, 4, 15);
        game.reveal_cell(2, 1);
        assert!(game.mines_generated);
        assert_eq!(mines(&game).len(), 15);
        assert_eq!(game.grid[1][2].content, CellContent::Empty(8));
        assert_eq!(game.state, GameState::Won);
    }
}

#[test]
fn different_games_are_dealt_differently() {
    let mut seen: Vec<Vec<(usize, usize)>> = Vec::new();
    for _ in 0..20 {
        let mut game = Minesweeper::new(16, 16, 40);
        game.reveal_cell(8, 8);
        let layout = mines(&game);
        assert_eq!(layout.len(), 40);
        if !seen.contains(&layout) {
            seen.push(layout);
        }
    }
    assert!(seen.len() > 1);
}

#[test]
fn an_empty_cell_opens_its_surroundings() {
    // A mine in the corner of a long board: everything else opens at once.
    let mut game = dealt(5, 1, (4, 0), &[0]);
    assert_eq!(mines(&game), vec![(0, 0)]);
    game.reveal_cell(4, 0);
    assert_eq!(game.state, GameState::Won);
    assert_eq!(game.grid[0][0].state, CellState::Hidden);
    for x in 1..5 {
        assert_eq!(game.grid[0][x].state, CellState::Visible);
    }
}

#[test]
fn a_flag_stops_an_opening() {
    let mut game = dealt(5, 1, (4, 0), &[0]);
    game.toggle_flag(3, 0);
    game.reveal_cell(4, 0);
    assert_eq!(game.grid[0][4].state, CellState::Visible);
    assert_eq!(game.grid[0][3].state, CellState::Flagged);
    assert_eq!(game.grid[0][2].state, CellState::Hidden);
    assert_eq!(game.state, GameState::Playing);
    // A flagged cell is not revealed.
    game.reveal_cell(3, 0);
    assert_eq!(game.grid[0][3].state, CellState::Flagged);
}

#[test]
fn a_mine_loses_and_shows_all_mines() {
    let mut game = dealt(4, 1, (3, 0), &[0, 0]);
    assert_eq!(mines(&game), vec![(0, 0), (2, 0)]);
    game.toggle_flag(2, 0);
    game.reveal_cell(0, 0);
    assert_eq!(game.state, GameState::Lost);
    assert_eq!(game.grid[0][0].state, CellState::Visible);
    assert_eq!(game.grid[0][2].state, CellState::Visible);
    assert_eq!(game.grid[0][1].state, CellState::Hidden);
    // Nothing happens once the game is over.
    game.reveal_cell(1, 0);
    game.toggle_flag(1, 0);
    assert_eq!(game.grid[0][1].state, CellState::Hidden);
}

#[test]
fn toggling_a_flag_twice_changes_nothing() {
    let mut game = dealt(3, 1, (0, 0), &[1]);
    game.toggle_flag(1, 0);
    assert_eq!(game.grid[0][1].state, CellState::Flagged);
    game.toggle_flag(1, 0);
    assert_eq!(game.grid[0][1].state, CellState::Hidden);
    game.reveal_cell(1, 0);
    game.toggle_flag(1, 0);
    assert_eq!(game.grid[0][1].state, CellState::Visible);
}

#[test]
fn a_board_is_written_row_by_row() {
    let mut game = dealt(3, 2, (2, 0), &[0]);
    assert_eq!(mines(&game), vec![(0, 0)]);
    game.toggle_flag(0, 0);
    game.reveal_cell(1, 0);
    assert_eq!(game.to_string(), "F 1 . \n. . . \n");
    game.reveal_cell(2, 0);
    assert_eq!(game.to_string(), "F 1   \n. 1   \n");
    game.toggle_flag(0, 0);
    game.reveal_cell(0, 0);
    assert_eq!(game.to_string(), "* 1   \n. 1   \n");
}
