//! Estimators, their parts, and what they report.

use minesweeper_core::big_nat::BigNat;
use minesweeper_core::counting::combinations;
use minesweeper_core::probability::cache::signature;
use minesweeper_core::probability::components::{decompose, Component, Forest};
use minesweeper_core::probability::constraint_search::cs_memory_estimate;
use minesweeper_core::probability::monte_carlo::{MonteCarlo, MonteCarloRun, Phase, Sampler};
use minesweeper_core::probability::neural::Question;
use minesweeper_core::probability::propagate::propagate;
use minesweeper_core::probability::setup::{memory_estimate, SimSetup};
use minesweeper_core::probability::{
    certain_cells, ConstraintSearch, ProbabilityStrategy, SimUpdate, Strategy,
};
use minesweeper_core::{CellContent, CellState, Minesweeper};

/// A board drawn as text: `*` a hidden mine, `.` a hidden cell without, a digit a visible
/// number, `F` a flagged mine, `f` a flagged cell without, `X` a visible mine.
fn drawn(rows: &[&str]) -> Minesweeper {
    let height = rows.len();
    let width = rows[0].len();
    let at = |x: usize, y: usize| rows[y].as_bytes()[x];
    let mut game = Minesweeper::new(width, height, 0);
    for y in 0..height {
        for x in 0..width {
            let mut around = 0;
            for ny in y.saturating_sub(1)..(y + 2).min(height) {
                for nx in x.saturating_sub(1)..(x + 2).min(width) {
                    if (nx, ny) != (x, y) && b"*FX".contains(&at(nx, ny)) {
                        around += 1;
                    }
                }
            }
            let mine = b"*FX".contains(&at(x, y));
            if mine {
                game.mines_count += 1;
            }
            game.grid[y][x].content =
                if mine { CellContent::Mine } else { CellContent::Empty(around) };
            game.grid[y][x].state = match at(x, y) {
                b'*' | b'.' => CellState::Hidden,
                b'F' | b'f' => CellState::Flagged,
                _ => CellState::Visible,
            };
        }
    }
    game.mines_generated = true;
    game
}

fn small(n: &BigNat) -> u64 {
    n.to_u64().expect("a small number")
}

#[test]
fn big_numbers_add_multiply_and_divide() {
    let a = BigNat::from_u64(u64::MAX);
    let b = a.plus(&BigNat::from_u64(1));
    assert_eq!(b.limbs, vec![0, 0, 1]);
    assert_eq!(b.to_u64(), None);
    let c = b.times(&b);
    assert_eq!(c.limbs, vec![0, 0, 0, 0, 1]);
    let (q, r) = c.times_small(7).plus(&BigNat::from_u64(3)).divided_by(7);
    assert!(q.equals(&c));
    assert_eq!(r, 3);
    assert!(c.exceeds(&b) && !b.exceeds(&c) && !c.exceeds(&c.copy()));
    assert!(BigNat::zero().is_zero());
    assert_eq!(small(&BigNat::from_u64(12).times(&BigNat::from_u64(12))), 144);
}

#[test]
fn combinations_count_subsets() {
    assert_eq!(small(&combinations(5, 2)), 10);
    assert_eq!(small(&combinations(5, 0)), 1);
    assert_eq!(small(&combinations(5, 6)), 0);
    assert_eq!(small(&combinations(52, 5)), 2_598_960);
    assert_eq!(small(&combinations(60, 30)), 118_264_581_564_861_424);
    assert_eq!(combinations(200, 100).limbs.len(), 7);
}

#[test]
fn a_board_becomes_a_problem() {
    // The 1 has two cells around it that are open questions.
    let game = drawn(&["*.", "1."]);
    let setup = SimSetup::build(&game).expect("there is a problem");
    assert_eq!(setup.hidden_cells, vec![(0, 0), (1, 0), (1, 1)]);
    assert_eq!(setup.constraints.len(), 1);
    assert_eq!(setup.constraints[0].1, 1);
    assert_eq!(setup.mines_to_place, 1);
    assert!(setup.certain_mines.is_empty() && setup.certain_safe.is_empty());
}

#[test]
fn more_mines_than_cells_is_no_problem() {
    let mut game = drawn(&["*1", "11"]);
    game.mines_count = 5;
    assert!(SimSetup::build(&game).is_none());
    let proven = certain_cells(&game);
    assert!(proven.mines.is_empty() && proven.safe.is_empty());
    assert!(ConstraintSearch::new().calculate(&game).is_none());
    assert!(MonteCarlo::new().calculate(&game).is_none());
    assert!(matches!(Question::new(&game), Question::Impossible));
}

#[test]
fn visible_mines_are_taken_off() {
    let game = drawn(&["X2*"]);
    let proven = certain_cells(&game);
    assert_eq!(proven.mines, vec![(2, 0)]);
}

#[test]
fn propagation_settles_what_local_rules_can() {
    // Cells 0 and 1 hold one mine, cells 0, 1 and 2 hold two: 2 is a mine. The mines are
    // used up then, so 3 is safe.
    let constraints = vec![(vec![0, 1], 1), (vec![0, 1, 2], 2), (vec![2], 1)];
    let (mines, safe, left, to_place) = propagate(4, &constraints, 2);
    assert_eq!(mines, vec![2]);
    assert_eq!(safe, Vec::<usize>::new());
    assert_eq!(to_place, 1);
    assert_eq!(left.len(), 3);

    let (mines, safe, _, to_place) = propagate(3, &vec![(vec![0, 1], 2)], 2);
    assert_eq!((mines, safe, to_place), (vec![0, 1], vec![2], 0));
}

#[test]
fn groups_share_no_cell() {
    let constraints = vec![(vec![0, 1], 1), (vec![3, 4], 1), (vec![1, 2], 1)];
    let setup = SimSetup {
        hidden_cells: (0..6).map(|x| (x, 0)).collect(),
        constraints,
        mines_to_place: 3,
        certain_mines: Vec::new(),
        certain_safe: Vec::new(),
    };
    let groups = decompose(&setup);
    assert_eq!(groups.len(), 2);
    assert_eq!(groups[0].cells, vec![0, 1, 2]);
    assert_eq!(groups[1].cells, vec![3, 4]);
}

#[test]
fn an_exact_estimate_counts_layouts() {
    // One mine on two cells next to the 1, or the other; nothing else.
    let game = drawn(&["*.", "1."]);
    let estimate = ConstraintSearch::new().calculate(&game).expect("an answer");
    assert_eq!(small(&estimate.total), 3);
    assert_eq!(small(&estimate.mines[0][0]), 1);
    assert_eq!(small(&estimate.mines[0][1]), 1);
    assert_eq!(small(&estimate.mines[1][0]), 0);
    assert_eq!(small(&estimate.mines[1][1]), 1);
}

#[test]
fn the_search_reports_once_and_remembers() {
    let game = drawn(&["*..", "1..", "..."]);
    let mut search = ConstraintSearch::new();
    assert_eq!(search.cache_counts(), (0, 0));
    for round in 0..2u32 {
        match search.calculate_with_progress(&game) {
            SimUpdate::Done { strategy, valid, attempts, memory_bytes, probs } => {
                assert_eq!(strategy, Strategy::ConstraintSearch);
                // The group of the 1 has five cells: one layout for each. A solution found in
                // the cache adds no steps and no layouts.
                assert_eq!(valid, if round == 0 { 5 } else { 1 });
                assert_eq!(attempts > 0, round == 0);
                let setup = SimSetup::build(&game).expect("there is a problem");
                assert_eq!(memory_bytes, cs_memory_estimate(&setup));
                assert_eq!(small(&probs.total), 5);
            }
            SimUpdate::Progress { .. } => panic!("the search reports only its end"),
        }
        // Nothing is told of the cache until the search turns out to be kept.
        assert_eq!(search.cache_counts(), if round == 0 { (0, 0) } else { (1, 1) });
    }
}

#[test]
fn a_search_without_budget_has_no_answer() {
    let game = drawn(&["*..", "1..", "..."]);
    let mut search = ConstraintSearch::new();
    search.max_nodes = 0;
    assert!(search.calculate(&game).is_none());
    assert!(ConstraintSearch::exhaustive().calculate(&game).is_some());
}

#[test]
fn contradicting_numbers_have_no_answer() {
    let mut game = drawn(&["*.", "1."]);
    game.grid[1][1].state = CellState::Visible;
    game.grid[1][1].content = CellContent::Empty(2);
    game.mines_count = 2;
    // One cell next to both, and one next to the 2 only, cannot make 1 and 2.
    game.grid[0][1].state = CellState::Visible;
    game.grid[0][1].content = CellContent::Empty(0);
    assert!(ConstraintSearch::new().calculate(&game).is_none());
}

#[test]
fn few_placements_are_all_looked_at() {
    let game = drawn(&["*.", "1."]);
    let estimate = MonteCarlo::new().calculate(&game).expect("an answer");
    assert_eq!(small(&estimate.total), 3);
    assert_eq!(small(&estimate.mines[1][1]), 1);

    let mut run = MonteCarlo::new().calculate_with_progress(&game);
    let mut reports = 0;
    loop {
        match run.next_update() {
            SimUpdate::Progress { strategy, attempts, max_attempts, memory_bytes, .. } => {
                reports += 1;
                assert_eq!(strategy, Strategy::MonteCarlo);
                assert_eq!(attempts, reports);
                assert_eq!(max_attempts, 3);
                let setup = SimSetup::build(&game).expect("there is a problem");
                assert_eq!(memory_bytes, memory_estimate(&setup));
            }
            SimUpdate::Done { attempts, valid, .. } => {
                assert_eq!((attempts, valid), (3, 3));
                break;
            }
        }
    }
    assert_eq!(reports, 3);
}

#[test]
fn samples_are_near_the_exact_answer() {
    let game = drawn(&[
        "*.....", "1.....", "......", "......", "......", "....**",
    ]);
    let exact = ConstraintSearch::new().calculate(&game).expect("an answer");
    let mut sampling = MonteCarlo::new();
    sampling.max_valid = 4_000;
    let sampled = sampling.calculate(&game).expect("an answer");
    let share = |part: &BigNat, whole: &BigNat| -> f64 {
        let value = |n: &BigNat| {
            n.limbs.iter().rev().fold(0.0f64, |v, limb| v * 4294967296.0 + *limb as f64)
        };
        value(part) / value(whole)
    };
    for y in 0..6 {
        for x in 0..6 {
            let e = share(&exact.mines[y][x], &exact.total);
            let s = share(&sampled.mines[y][x], &sampled.total);
            assert!((e - s).abs() < 0.1, "({x}, {y}): exact {e}, sampled {s}");
        }
    }
}

#[test]
fn exact_results_rank_above_approximations() {
    assert_eq!(Strategy::ConstraintSearch.priority(), 2);
    assert_eq!(Strategy::NeuralNetwork.priority(), 1);
    assert_eq!(Strategy::MonteCarlo.priority(), 1);
}

#[test]
fn answers_of_a_network_are_spread_over_the_board() {
    // (6, 0) is a certain mine, whatever the network says; some others are open.
    let game = drawn(&["*....1*", "1....11"]);
    let question = Question::new(&game);
    let (hidden, batch) = match &question {
        Question::Cells(setup, batch) => (setup.hidden_cells.clone(), batch.len()),
        _ => panic!("there is something to ask"),
    };
    assert_eq!(batch, hidden.len() * 648);
    let answers: Vec<u64> = (0..hidden.len() as u64).map(|i| 10 + 100 * i).collect();
    match question.answered(&game, &answers, 100) {
        SimUpdate::Done { strategy, attempts, valid, memory_bytes, probs } => {
            assert_eq!(strategy, Strategy::NeuralNetwork);
            assert_eq!((attempts, valid), (1, hidden.len()));
            assert!(memory_bytes > 0);
            assert_eq!(small(&probs.total), 100);
            for (i, &(x, y)) in hidden.iter().enumerate() {
                assert_eq!(small(&probs.mines[y][x]), if i == 0 { 10 } else { 100 });
            }
            assert_eq!(small(&probs.mines[1][0]), 0);
            assert_eq!(small(&probs.mines[0][6]), 100);
            assert_eq!(small(&probs.mines[0][4]), 0);
        }
        SimUpdate::Progress { .. } => panic!("a network reports only its end"),
    }
}

#[test]
fn nothing_is_asked_where_the_numbers_settle_all() {
    let game = drawn(&["*1", "11"]);
    let question = Question::new(&game);
    assert!(matches!(question, Question::Settled(_)));
    match question.answered(&game, &Vec::new(), 1) {
        SimUpdate::Done { valid, probs, .. } => {
            assert_eq!(valid, 0);
            assert_eq!(small(&probs.mines[0][0]), 1);
            assert_eq!(small(&probs.mines[1][1]), 0);
            assert_eq!(small(&probs.total), 1);
        }
        SimUpdate::Progress { .. } => panic!("a network reports only its end"),
    }
}

#[test]
fn the_same_region_elsewhere_is_found_in_the_cache() {
    let mut search = ConstraintSearch::new();
    let here = search.calculate(&drawn(&["*....", "1....", "....."])).expect("an answer");
    assert_eq!(search.cache_counts(), (0, 0));
    // The same shape on a wider board, mirrored boards are another shape.
    let there = search.calculate(&drawn(&["*.......", "1.......", "........"])).expect("an answer");
    assert_eq!(search.cache_counts(), (1, 1));
    assert_eq!(small(&here.mines[0][0]), small(&there.mines[0][0]));
    assert_eq!(small(&there.total), 5);
}

#[test]
fn flags_change_nothing_that_is_proven() {
    let open = drawn(&["*1.", "11.", "..."]);
    let flagged = drawn(&["F1.", "11f", "..."]);
    let (a, b) = (certain_cells(&open), certain_cells(&flagged));
    assert_eq!((a.mines, a.safe), (b.mines, b.safe));
}

#[test]
fn a_sample_weighs_its_completions() {
    // Two cells next to a 1, four cells inside, and two mines to place.
    let setup = SimSetup {
        hidden_cells: (0..6).map(|x| (x, 0)).collect(),
        constraints: vec![(vec![0, 1], 1)],
        mines_to_place: 2,
        certain_mines: Vec::new(),
        certain_safe: Vec::new(),
    };
    let mut sampler = Sampler::start(&setup);
    assert!(sampler.record(&setup, &vec![0]));
    assert!(!sampler.record(&setup, &vec![0, 1]));
    // The other mine is on one of four cells.
    assert_eq!((sampler.attempts, sampler.valid), (2, 1));
    let total = small(&sampler.total);
    assert_eq!(small(&sampler.counts[0]), total);
    assert_eq!(small(&sampler.counts[1]), 0);
    assert_eq!(4 * small(&sampler.counts[2]), total);
}

#[test]
fn samples_are_weighed_by_how_often_they_come_up() {
    // Numbers [0, 1] = 1 and [1, 2, 3] = 1, two cells inside, and two mines to place: four
    // layouts, two of which put a mine on cell 1.
    let setup = SimSetup {
        hidden_cells: (0..6).map(|x| (x, 0)).collect(),
        constraints: vec![(vec![0, 1], 1), (vec![1, 2, 3], 1)],
        mines_to_place: 2,
        certain_mines: Vec::new(),
        certain_safe: Vec::new(),
    };
    let (mut all, mut one, mut inside) = (0, 0, 0);
    for mines in 0..3usize {
        // Everything that can be drawn with so many mines, each as likely as the others.
        let mut sampler = Sampler::start(&setup);
        for bits in 0..16usize {
            let chosen: Vec<usize> = (0..4).filter(|c| bits >> c & 1 == 1).collect();
            if chosen.len() == mines {
                let fits = sampler.record(&setup, &chosen);
                assert_eq!(fits, chosen == [1] || chosen == [0, 2] || chosen == [0, 3]);
            }
        }
        let drawn = sampler.attempts as u64;
        assert_eq!(drawn, [1, 4, 6][mines]);
        assert_eq!(small(&sampler.total) % drawn, 0);
        all += small(&sampler.total) / drawn;
        one += small(&sampler.counts[1]) / drawn;
        inside += small(&sampler.counts[4]) / drawn;
    }
    // All are scaled by the two cells inside.
    assert_eq!((all, one, inside), (8, 4, 2));
}

#[test]
fn sampling_a_fresh_board_finds_something() {
    // Far too many layouts to look at each, and no number that a draw could miss.
    let game = Minesweeper::new(16, 16, 40);
    let mut sampling = MonteCarlo { max_valid: 5, max_attempts: 1000 };
    match sampling.final_report(&game) {
        SimUpdate::Done { attempts, valid, probs, .. } => {
            assert_eq!((attempts, valid), (5, 5));
            let total = probs.total.times_small(40);
            assert!(probs.mines[0][0].times_small(256).equals(&total));
        }
        SimUpdate::Progress { .. } => panic!("the end was asked for"),
    }
    assert!(sampling.calculate(&game).is_some());
}

#[test]
fn a_number_about_no_cell_belongs_to_no_group() {
    let setup = SimSetup {
        hidden_cells: (0..6).map(|x| (x, 0)).collect(),
        constraints: vec![
            (vec![3, 4], 1),
            (vec![0, 1], 1),
            (vec![1, 2], 1),
            (vec![], 0),
        ],
        mines_to_place: 2,
        certain_mines: Vec::new(),
        certain_safe: Vec::new(),
    };
    let groups = decompose(&setup);
    assert_eq!(groups.len(), 2);
    assert_eq!(groups[0].cells, [0, 1, 2]);
    assert_eq!(groups[0].constraints, [(vec![0, 1], 1), (vec![1, 2], 1)]);
    assert_eq!(groups[1].cells, [3, 4]);
    assert_eq!(groups[1].constraints, [(vec![0, 1], 1)]);
}

#[test]
fn joining_trees_joins_no_others() {
    let mut forest = Forest::new(6);
    forest.union(0, 1);
    forest.union(2, 3);
    forest.union(1, 3);
    let roots: Vec<usize> = (0..6).map(|c| forest.find(c)).collect();
    for c in 0..6 {
        for d in 0..6 {
            assert_eq!(roots[c] == roots[d], c == d || c < 4 && d < 4);
        }
    }
}

#[test]
fn a_signature_does_not_depend_on_the_order() {
    let squares = vec![(4, 4), (5, 4), (6, 4)];
    let group = |constraints| Component { cells: vec![0, 1, 2], constraints };
    let a = signature(&group(vec![(vec![0, 1], 1), (vec![1, 2], 1)]), &squares);
    let b = signature(&group(vec![(vec![2, 1], 1), (vec![1, 0], 1)]), &squares);
    let c = signature(&group(vec![(vec![0, 1], 1), (vec![1, 2], 2)]), &squares);
    assert_eq!((&a.cells, &a.constraints), (&b.cells, &b.constraints));
    assert_ne!(a.constraints, c.constraints);
    let elsewhere = vec![(4, 4), (5, 4), (7, 4)];
    let d = signature(&group(vec![(vec![0, 1], 1), (vec![1, 2], 1)]), &elsewhere);
    assert_ne!(a.cells, d.cells);
}

#[test]
fn a_larger_budget_gives_the_same_answer() {
    let game = drawn(&["*....", "1..1.", "....*"]);
    let setup = SimSetup::build(&game).expect("there is a problem");
    let solved = ConstraintSearch::exhaustive().solve(&setup).expect("an answer");
    assert!(solved.layouts >= 1);
    let with = |max_nodes| {
        let mut search = ConstraintSearch::new();
        search.max_nodes = max_nodes;
        search.solve(&setup)
    };
    assert!(with(solved.nodes - 1).is_none());
    for max_nodes in [solved.nodes, solved.nodes + 1, 1_000_000] {
        let again = with(max_nodes).expect("an answer");
        assert_eq!((again.nodes, again.layouts), (solved.nodes, solved.layouts));
        assert!(again.combined.total.equals(&solved.combined.total));
    }
}

#[test]
fn flags_change_no_answer() {
    let open = drawn(&["*....", "1..1.", "....*"]);
    let flagged = drawn(&["F.f..", "1..1.", "f...F"]);
    let a = ConstraintSearch::new().calculate(&open).expect("an answer");
    let b = ConstraintSearch::new().calculate(&flagged).expect("an answer");
    assert!(a.total.equals(&b.total));
    for y in 0..3 {
        for x in 0..5 {
            assert!(a.mines[y][x].equals(&b.mines[y][x]));
        }
    }
}

#[test]
fn only_open_questions_are_left() {
    for game in [
        drawn(&["*1...", "11...", "...1*"]),
        drawn(&["*....", "1..1.", "....*"]),
        drawn(&["*.*", "222", "..."]),
    ] {
        let setup = SimSetup::build(&game).expect("there is a problem");
        let cells_left = setup.hidden_cells.len();
        for (cells, mines) in &setup.constraints {
            assert!(!cells.is_empty());
            assert!(cells.windows(2).all(|pair| pair[0] < pair[1]));
            assert!(cells.iter().all(|c| *c < cells_left));
            assert!(*mines != 0 && *mines != cells.len());
        }
        assert!(cells_left == 0 || setup.mines_to_place != 0 && setup.mines_to_place != cells_left);
    }
}

#[test]
fn sampling_gives_up_where_nothing_fits() {
    // Each two of three cells hold one mine: that cannot be.
    let setup = SimSetup {
        hidden_cells: (0..40).map(|x| (x, 0)).collect(),
        constraints: vec![(vec![0, 1], 1), (vec![1, 2], 1), (vec![0, 2], 1)],
        mines_to_place: 20,
        certain_mines: Vec::new(),
        certain_safe: Vec::new(),
    };
    let sampler = Sampler::start(&setup);
    let mut run = MonteCarloRun {
        setup,
        width: 40,
        height: 1,
        max_steps: 1000,
        every: 50,
        max_valid: 10,
        phase: Phase::Sampling(sampler, 0, 3),
    };
    let mut reports = 0;
    loop {
        match run.next_update() {
            SimUpdate::Progress { valid, .. } => {
                assert_eq!(valid, 0);
                reports += 1;
            }
            SimUpdate::Done { attempts, valid, probs, .. } => {
                assert_eq!((attempts, valid), (100, 0));
                assert!(probs.mines[0][0].is_zero());
                break;
            }
        }
    }
    assert_eq!(reports, 2);
}

#[test]
fn cells_that_no_number_speaks_about_are_alike() {
    let game = drawn(&["*.....", "1.....", "......", "....*."]);
    let estimate = ConstraintSearch::new().calculate(&game).expect("an answer");
    let inner = small(&estimate.mines[3][5]);
    for (x, y) in [(2, 0), (5, 1), (3, 2), (0, 3)] {
        assert_eq!(small(&estimate.mines[y][x]), inner);
    }
    assert!(small(&estimate.mines[0][0]) != inner);
}
