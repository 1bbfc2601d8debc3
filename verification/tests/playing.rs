//! Playing what can be proven, and the front ends around it.

use minesweeper_core::autoplay::{apply_auto_reveal, flag_all, flag_then_open, reveal_all};
use minesweeper_core::big_nat::BigNat;
use minesweeper_core::console::{compute_probs, Console, Ink, Key, Paper};
use minesweeper_core::page::Page;
use minesweeper_core::probability::{
    certain_cells, ConstraintSearch, Estimate, ProbabilityStrategy, SimUpdate, Strategy,
};
use minesweeper_core::samples;
use minesweeper_core::session::{encode_cell, Session, AUTO, CONSTRAINT_SEARCH, MONTE_CARLO};
use minesweeper_core::settings::Settings;
use minesweeper_core::window::Window;
use minesweeper_core::{Cell, CellContent, CellState, GameState, Minesweeper};

/// A board with the given mines and right numbers, all hidden.
fn board(width: usize, height: usize, mines: &[(usize, usize)]) -> Minesweeper {
    let mut game = Minesweeper::new(width, height, mines.len());
    for y in 0..height {
        for x in 0..width {
            let near = mines
                .iter()
                .filter(|m| m.0.abs_diff(x) <= 1 && m.1.abs_diff(y) <= 1)
                .count() as u8;
            game.grid[y][x].content = if mines.contains(&(x, y)) {
                CellContent::Mine
            } else {
                CellContent::Empty(near)
            };
        }
    }
    game.mines_generated = true;
    game
}

#[test]
fn only_hidden_cells_are_opened_and_flagged() {
    let mut game = board(4, 1, &[(0, 0)]);
    game.toggle_flag(1, 0);
    assert_eq!(flag_all(&mut game, &vec![(0, 0), (1, 0), (0, 0)]), 1);
    assert_eq!(game.grid[0][0].state, CellState::Flagged);
    assert_eq!(game.grid[0][1].state, CellState::Flagged);
    // Opening (3, 0) opens (2, 0) as well, which is then no longer hidden.
    assert_eq!(reveal_all(&mut game, &vec![(1, 0), (3, 0), (2, 0)]), 1);
    assert_eq!(game.grid[0][2].state, CellState::Visible);
    assert_eq!(game.state, GameState::Playing);
}

#[test]
fn what_is_proven_is_played() {
    let mut game = board(5, 1, &[(0, 0)]);
    game.grid[0][1].state = CellState::Visible;
    let nothing = Estimate::uniform(5, 1, 1);
    assert!(!apply_auto_reveal(&mut Minesweeper::new(5, 1, 1), &nothing, false));
    // The 1 at (1, 0) leaves (0, 0) and (2, 0) open: nothing is proven.
    assert!(!apply_auto_reveal(&mut game, &nothing, false));
    assert_eq!(game.grid[0][2].state, CellState::Hidden);
    // Once (2, 0) is open, the rest follows.
    game.grid[0][2].state = CellState::Visible;
    assert!(apply_auto_reveal(&mut game, &nothing, false));
    assert_eq!(game.state, GameState::Won);
    assert_eq!(game.grid[0][0].state, CellState::Hidden);
}

#[test]
fn only_an_exact_zero_is_opened() {
    // 1-2-1 along a wall: propagation does not see that the middle is safe.
    let mines = [(0, 0), (2, 0)];
    let mut game = board(3, 2, &mines);
    for x in 0..3 {
        game.grid[1][x].state = CellState::Visible;
    }
    game.mines_count = 2;
    let exact = ConstraintSearch::new().calculate(&game).expect("an answer");
    assert!(exact.mines[0][1].is_zero());
    let mut sampled = board(3, 2, &mines);
    for x in 0..3 {
        sampled.grid[1][x].state = CellState::Visible;
    }
    let proven = minesweeper_core::probability::certain_cells(&game);
    let opened = apply_auto_reveal(&mut sampled, &exact, false);
    assert_eq!(opened, !proven.safe.is_empty());
    assert!(apply_auto_reveal(&mut game, &exact, true));
    assert_eq!(game.state, GameState::Won);
}

#[test]
fn a_small_chance_is_not_opened() {
    let mut game = board(3, 1, &[(2, 0)]);
    game.grid[0][1].state = CellState::Visible;
    let mut probs = Estimate::uniform(3, 1, 1);
    probs.total = BigNat::from_u64(1_000_000_000);
    probs.mines[0][0] = BigNat::from_u64(1);
    probs.mines[0][2] = BigNat::from_u64(999_999_999);
    assert!(!apply_auto_reveal(&mut game, &probs, true));
    assert_eq!(game.grid[0][0].state, CellState::Hidden);
    assert_eq!(game.grid[0][2].state, CellState::Hidden);
    assert_eq!(game.state, GameState::Playing);
    probs.mines[0][0] = BigNat::zero();
    assert!(!apply_auto_reveal(&mut game, &probs, false));
    assert_eq!(game.grid[0][0].state, CellState::Hidden);
    assert!(apply_auto_reveal(&mut game, &probs, true));
    assert_eq!(game.state, GameState::Won);
}

#[test]
fn flags_come_before_what_is_opened() {
    let mut game = board(5, 1, &[(0, 0)]);
    let opened = flag_then_open(&mut game, &vec![(0, 0), (2, 0)], &vec![(2, 0), (1, 0), (3, 0)]);
    // (2, 0) is flagged when its turn comes; opening (3, 0) opens (4, 0) but no flag.
    assert_eq!(opened, 2);
    assert_eq!(game.grid[0][0].state, CellState::Flagged);
    assert_eq!(game.grid[0][2].state, CellState::Flagged);
    assert_eq!(game.grid[0][4].state, CellState::Visible);
    assert_eq!(game.state, GameState::Playing);
}

#[test]
fn playing_goes_on_until_nothing_is_proven() {
    for _ in 0..20 {
        let mut game = Minesweeper::new(9, 9, 10);
        game.reveal_cell(4, 4);
        let before = certain_cells(&game);
        let any = before.safe.iter().any(|c| game.grid[c.1][c.0].state == CellState::Hidden);
        let nothing = Estimate::uniform(9, 9, 10);
        if game.state == GameState::Playing {
            assert_eq!(apply_auto_reveal(&mut game, &nothing, false), any);
        }
        if game.state == GameState::Playing {
            let after = certain_cells(&game);
            for (x, y) in after.safe.into_iter().chain(after.mines) {
                assert!(game.grid[y][x].state != CellState::Hidden);
            }
        }
    }
}

#[test]
fn a_session_without_an_answer_opens_nothing() {
    let mut session = Session::new(3, 3, 1);
    let mut game = board(3, 3, &[(0, 0)]);
    game.grid[1][1].state = CellState::Visible;
    session.game = game;
    session.exact.max_nodes = 0;
    assert_eq!(session.auto_reveal(CONSTRAINT_SEARCH), 0);
    assert_eq!(session.game.state, GameState::Playing);
    for row in &session.game.grid {
        let open = row.iter().filter(|cell| cell.state == CellState::Visible).count();
        assert!(open <= 1);
    }
    assert!(!session.proven);
}

#[test]
fn a_session_counts_what_its_cache_has_served() {
    let mut session = Session::new(4, 4, 2);
    session.game = board(4, 4, &[(0, 0), (3, 3)]);
    session.reveal_at(1, 1);
    session.compute(CONSTRAINT_SEARCH);
    assert_eq!(session.stats.list()[7..], [0, 1]);
    session.compute(CONSTRAINT_SEARCH);
    assert_eq!(session.stats.list()[7..], [1, 1]);
    // Sampling asks the cache nothing, and the numbers stay.
    session.compute(MONTE_CARLO);
    assert_eq!(session.stats.list()[7..], [1, 1]);
}

#[test]
fn cells_are_encoded_as_bytes() {
    let cell = |state, content| Cell { state, content };
    assert_eq!(encode_cell(&cell(CellState::Hidden, CellContent::Mine)), 10);
    assert_eq!(encode_cell(&cell(CellState::Flagged, CellContent::Mine)), 11);
    assert_eq!(encode_cell(&cell(CellState::Visible, CellContent::Mine)), 9);
    assert_eq!(encode_cell(&cell(CellState::Visible, CellContent::Empty(3))), 3);
    assert_eq!(encode_cell(&cell(CellState::Visible, CellContent::Empty(200))), 8);
}

#[test]
fn a_session_keeps_its_bytes_in_step() {
    let mut session = Session::new(2, 1000, 0);
    assert_eq!((session.game.width, session.game.height), (3, 200));
    assert_eq!(session.game.mines_count, 1);
    assert_eq!(session.cells, vec![10u8; 600]);
    assert_eq!(session.stats.list(), vec![0u32; 9]);
    session.flag_at(1, 0);
    assert_eq!(session.cells[1], 11);
    assert_eq!(session.flags(), 1);
    session.flag_at(7, 0);
    assert_eq!(session.flags(), 1);
    session.reveal_at(0, 1);
    assert!(session.game.mines_generated);
    assert!(session.cells[3] < 9);
    assert_eq!(session.state_code(), if session.game.state == GameState::Won { 1 } else { 0 });
}

#[test]
fn a_session_says_which_estimator_it_used() {
    let mut session = Session::new(4, 4, 2);
    session.game = board(4, 4, &[(0, 0), (3, 3)]);
    session.reveal_at(1, 1);
    session.compute(AUTO);
    assert!(session.proven);
    let stats = session.stats.list();
    assert_eq!(stats[6], CONSTRAINT_SEARCH);
    assert!(stats[3] > 0);
    assert_eq!(stats[0..3], [0, 0, 0]);
    session.compute(MONTE_CARLO);
    let stats = session.stats.list();
    assert_eq!(stats[6], MONTE_CARLO);
    assert!(stats[0] > 0 && stats[1] > 0 && stats[2] > 0);
    assert_eq!(stats[3..6], [0, 0, 0]);
    assert!(!session.proven);
}

#[test]
fn a_session_plays_itself_without_losing() {
    for round in 0..20 {
        let mut session = Session::new(9, 9, 10);
        assert_eq!(session.auto_reveal(AUTO), 0);
        session.reveal_at(4, 4);
        let mode = if round % 2 == 0 { AUTO } else { CONSTRAINT_SEARCH };
        session.auto_reveal(mode);
        assert!(session.game.state != GameState::Lost);
        for row in &session.game.grid {
            for cell in row {
                if cell.state == CellState::Flagged {
                    assert_eq!(cell.content, CellContent::Mine);
                }
            }
        }
        assert_eq!(session.auto_reveal(mode), 0);
    }
}

#[test]
fn a_session_flags_what_the_search_proves() {
    // 1-2-1 along a wall, with one more column that the numbers settle.
    let mut session = Session::new(3, 3, 2);
    let mut game = board(3, 3, &[(0, 0), (2, 0)]);
    for x in 0..3 {
        game.grid[1][x].state = CellState::Visible;
        game.grid[2][x].state = CellState::Visible;
    }
    session.game = game;
    assert_eq!(session.auto_reveal(AUTO), 1);
    assert_eq!(session.game.state, GameState::Won);
}

#[test]
fn scoring_is_handed_out_by_the_session() {
    let mut session = Session::new(3, 3, 1);
    assert_eq!(session.begin_scoring(false), 0);
    assert_eq!(session.next_to_score(5).0.len(), 0);
    assert_eq!(session.begin_scoring(true), 9);
    let (batch, left) = session.next_to_score(4);
    assert_eq!((batch.len(), left), (4, 5));
    assert_eq!(batch[3].0, (0, 1));
    let (batch, left) = session.next_to_score(50);
    assert_eq!((batch.len(), left), (5, 0));
    assert!(session.scoring.is_none());
    assert!(!session.can_learn());
}

#[test]
fn keys_move_the_cursor_within_the_board() {
    let mut console = Console::new(Settings { width: 3, height: 3, mines: 1 });
    for key in [Key::Left, Key::Up] {
        assert!(!console.press(key));
        assert_eq!((console.cursor_x, console.cursor_y), (0, 0));
    }
    for _ in 0..5 {
        console.press(Key::Right);
        console.press(Key::Down);
    }
    assert_eq!((console.cursor_x, console.cursor_y), (2, 2));
    console.press(Key::Left);
    console.press(Key::Up);
    assert_eq!((console.cursor_x, console.cursor_y), (1, 1));
    assert!(!console.press(Key::Other));
    assert!(console.press(Key::Quit));
}

#[test]
fn keys_reveal_flag_and_restart() {
    let mut console = Console::new(Settings { width: 4, height: 4, mines: 3 });
    console.press(Key::Flag);
    assert_eq!(console.game.grid[0][0].state, CellState::Flagged);
    assert_eq!(console.look(0, 0).ink, Ink::Black);
    assert_eq!(console.look(0, 0).paper, Paper::White);
    console.press(Key::Right);
    let look = console.look(0, 0);
    assert_eq!((look.symbol.as_str(), look.ink), (" F ", Ink::Yellow));
    // Three mines on sixteen cells.
    assert_eq!(look.paper, Paper::Tint(214, 166));
    assert_eq!(console.write_verdict(), "Mine probability here: 18.8%");
    assert_eq!(console.write_title(), "4x4 board  |  Mines: 3");
    console.press(Key::Reveal);
    assert!(console.game.mines_generated);
    assert_eq!(console.game.grid[0][1].state, CellState::Visible);
    console.press(Key::Restart);
    assert!(!console.game.mines_generated);
    assert_eq!((console.cursor_x, console.cursor_y), (0, 0));
    assert_eq!(console.look(3, 3).symbol, " . ");
}

#[test]
fn the_console_plays_itself_without_losing() {
    for _ in 0..10 {
        let mut console = Console::new(Settings { width: 9, height: 9, mines: 10 });
        console.press(Key::Auto);
        assert!(console.auto_reveal);
        console.press(Key::Reveal);
        assert!(console.game.state != GameState::Lost);
        if console.game.state == GameState::Won {
            assert_eq!(console.write_verdict(), "YOU WON! Press Q to quit.");
        }
    }
}

#[test]
fn a_lost_game_says_so() {
    let mut console = Console::new(Settings { width: 3, height: 3, mines: 1 });
    console.game = board(3, 3, &[(0, 0)]);
    console.press(Key::Reveal);
    assert_eq!(console.game.state, GameState::Lost);
    assert_eq!(console.write_verdict(), "GAME OVER! Press Q to quit.");
    let look = console.look(0, 0);
    assert_eq!((look.symbol.as_str(), look.ink), (" * ", Ink::Red));
}

#[test]
fn sampling_is_skipped_where_the_search_has_an_answer() {
    let mut search = ConstraintSearch::new();
    let mut game = board(4, 4, &[(0, 0)]);
    game.grid[1][1].state = CellState::Visible;
    let shown = compute_probs(&mut search, &game);
    assert!(shown.exact);
    assert_eq!(shown.mc_status, "MC: 0 valid / 0 sampled  [0 B]");
    assert!(shown.cs_status.starts_with("CS: 8 layouts / "));
    // With more mines than cells nobody has an answer.
    let nothing = compute_probs(&mut search, &Minesweeper::new(2, 2, 9));
    assert!(!nothing.exact);
    assert_eq!(nothing.cs_status, "CS: 0 layouts / 0 steps  [0 B]");
}

#[test]
fn a_page_shows_the_exact_estimate() {
    let mut game = board(3, 3, &[(0, 0)]);
    game.grid[1][1].state = CellState::Visible;
    let page = Page::index(&game);
    assert_eq!((page.width, page.height, page.mines_count), (3, 3, 1));
    assert_eq!(page.state, GameState::Playing);
    assert!(page.cs_status.starts_with("CS: 8 layouts / "));
    assert!(page.mc_status.starts_with("MC: 8 valid / 8 sampled"));
    let cell = &page.grid[0][0];
    assert_eq!(cell.state, CellState::Hidden);
    assert_eq!(cell.content, CellContent::Mine);
    // One of eight cells.
    assert_eq!(cell.prob_pct, "12%");
    assert_eq!(cell.prob_color, "rgb(210,179,179)");
    assert_eq!(page.grid[1][1].prob_color, "rgb(204,204,204)");
}

fn done(strategy: Strategy, valid: usize, mines: usize) -> SimUpdate<Estimate> {
    SimUpdate::Done {
        strategy,
        attempts: 7,
        valid,
        memory_bytes: 0,
        probs: Estimate::uniform(3, 3, mines),
    }
}

#[test]
fn a_window_shows_the_most_trustworthy_estimate() {
    let mut window = Window::new(Settings { width: 3, height: 3, mines: 2 }, false, true);
    // Nothing is heard before the strategies are started.
    let outcome = window.check_prob_update(vec![done(Strategy::MonteCarlo, 1, 5)]);
    assert!(!outcome.changed && !outcome.launch);
    assert!(window.reveal_index(4) || window.game.state != GameState::Playing);
    window.game = board(3, 3, &[(0, 0), (2, 2)]);
    assert!(window.flag_index(0));
    assert!(window.listening);
    let outcome = window.check_prob_update(vec![
        done(Strategy::ConstraintSearch, 3, 4),
        done(Strategy::MonteCarlo, 9, 5),
        SimUpdate::Progress {
            strategy: Strategy::NeuralNetwork,
            attempts: 0,
            valid: 5,
            max_attempts: 0,
            memory_bytes: 0,
            probs: Estimate::uniform(3, 3, 1),
        },
    ]);
    assert!(outcome.changed && !outcome.launch);
    assert_eq!(window.probs.mines[0][0].to_u64(), Some(4));
    assert_eq!(window.mc.probs.mines[0][0].to_u64(), Some(5));
    assert!(window.mc.done && window.cs.done && !window.nn.done && window.listening);
    assert_eq!(window.cs.status, "✓ CS: 3 layouts / 7 steps  [0 B]");
    assert_eq!(window.mc.status, "✓ MC: 9 valid  /  7 sampled  [0 B]");
    assert_eq!(window.nn.status, "");
    let outcome = window.check_prob_update(vec![done(Strategy::NeuralNetwork, 0, 9)]);
    assert!(!outcome.changed);
    assert!(!window.listening && !window.nn.has_data);
    assert_eq!(window.nn.status, "✓ NN: 0 cells  [0 B]");
}

#[test]
fn a_window_opens_what_reads_zero() {
    let mut window = Window::new(Settings { width: 3, height: 3, mines: 1 }, true, false);
    window.game = board(3, 3, &[(0, 0)]);
    assert!(window.flag_index(0));
    // Nothing is opened on the word of a sample.
    let outcome = window.check_prob_update(vec![done(Strategy::MonteCarlo, 1, 0)]);
    assert!(outcome.changed && !outcome.launch);
    assert_eq!(window.game.state, GameState::Playing);
    let outcome = window.check_prob_update(vec![done(Strategy::ConstraintSearch, 1, 0)]);
    assert!(outcome.changed && !outcome.launch);
    assert_eq!(window.game.state, GameState::Won);
    assert_eq!(window.status_text(), "YOU WON!");
    assert_eq!(window.layout_count(), "");
}

#[test]
fn a_window_opens_row_by_row() {
    let mut window = Window::new(Settings { width: 3, height: 3, mines: 1 }, true, false);
    window.game = board(3, 3, &[(1, 0)]);
    // (2, 2) is flagged, and (1, 0) comes before all cells but (0, 0).
    assert!(window.flag_index(8));
    window.check_prob_update(vec![done(Strategy::ConstraintSearch, 1, 0)]);
    assert_eq!(window.game.state, GameState::Lost);
    assert_eq!(window.game.grid[0][0].state, CellState::Visible);
    assert_eq!(window.game.grid[0][1].state, CellState::Visible);
    assert_eq!(window.game.grid[0][2].state, CellState::Hidden);
    assert_eq!(window.game.grid[1][1].state, CellState::Hidden);
    assert_eq!(window.game.grid[2][2].state, CellState::Flagged);
}

#[test]
fn random_play_makes_its_moves() {
    let visible = |game: &Minesweeper| {
        let cells = game.grid.iter().flatten();
        cells.filter(|cell| cell.state == CellState::Visible).count()
    };
    for _ in 0..20 {
        // Mines on every other cell: each move opens one cell, or the mines.
        let mut game = board(7, 1, &[(1, 0), (3, 0), (5, 0)]);
        samples::play_some(&mut game, 0);
        assert_eq!(visible(&game), 0);
        samples::play_some(&mut game, 2);
        if game.state == GameState::Playing {
            assert_eq!(visible(&game), 2);
        } else {
            assert_eq!(game.state, GameState::Lost);
        }
        let before = visible(&game);
        let over = game.state != GameState::Playing;
        samples::play_some(&mut game, 100);
        assert!(game.state != GameState::Playing);
        assert!(!over || visible(&game) == before);
    }
    // Without a hidden cell there is nothing to do.
    let mut flagged = board(2, 1, &[(0, 0)]);
    flagged.toggle_flag(0, 0);
    flagged.toggle_flag(1, 0);
    samples::play_some(&mut flagged, 5);
    assert_eq!((visible(&flagged), flagged.state), (0, GameState::Playing));
}

#[test]
fn a_window_draws_its_cells() {
    let mut window = Window::new(Settings { width: 3, height: 3, mines: 2 }, false, false);
    assert_eq!(window.status_text(), "Mines: 2");
    assert_eq!(window.layout_count(), "36 possible layouts");
    window.game = board(3, 3, &[(0, 0), (1, 0)]);
    window.game.grid[1][0].state = CellState::Visible;
    window.game.grid[0][0].state = CellState::Flagged;
    window.game.grid[2][2].state = CellState::Visible;
    window.mc.has_data = true;
    window.cs.done = true;
    let views = window.render_cells();
    assert_eq!(views.len(), 9);
    let flag = &views[0];
    assert_eq!((flag.text.as_str(), flag.color.as_str()), ("F", "red"));
    // Two mines on nine cells.
    assert_eq!(flag.bg_color, "#d79f9f");
    assert_eq!(flag.mc_prob_text, "22%");
    assert_eq!((flag.cs_prob_text.as_str(), flag.nn_prob_text.as_str()), ("", ""));
    assert!(flag.is_border);
    let two = &views[3];
    assert_eq!((two.text.as_str(), two.color.as_str()), ("2", "green"));
    assert_eq!((two.bg_color.as_str(), two.is_border), ("#eee", false));
    assert_eq!(two.mc_prob_text, "");
    assert_eq!(views[8].text, "");
    assert!(!views[2].is_border);
    assert_eq!(window.layout_count(), "✓ 21 possible layouts");
    window.reset(-1, 4, 2);
    assert_eq!((window.game.width, window.game.height), (50, 4));
    assert!(!window.mc.has_data && !window.listening);
}

#[test]
fn generated_positions_are_labelled_exactly() {
    let mut search = ConstraintSearch::new();
    let mut made = 0;
    while made < 3 {
        if let Some(record) = samples::generate(&mut search) {
            made += 1;
            assert_eq!(record.grid.len(), record.height);
            let mut sum = 0.0;
            let value = |n: &minesweeper_core::big_nat::BigNat| {
                n.limbs.iter().rev().fold(0.0f64, |v, limb| v * 4294967296.0 + *limb as f64)
            };
            let total = value(&record.probs.total);
            for (y, row) in record.grid.iter().enumerate() {
                assert_eq!(row.len(), record.width);
                for (x, cell) in row.iter().enumerate() {
                    assert!(cell.state == 0 || cell.state == 1);
                    assert_eq!(cell.content == 255, cell.state == 0);
                    sum += value(&record.probs.mines[y][x]) / total;
                }
            }
            assert!((sum - record.mines_count as f64).abs() < 1e-6);
        }
    }
    let mut game = board(3, 1, &[(0, 0)]);
    assert!(samples::worth_labelling(&game));
    samples::reveal_hidden(&mut game, 1);
    assert_eq!(game.grid[0][1].state, CellState::Visible);
    samples::reveal_hidden(&mut game, 1);
    assert_eq!(game.state, GameState::Won);
    assert!(!samples::worth_labelling(&game));
    assert_eq!(samples::config(4), Settings { width: 30, height: 16, mines: 99 });
}
