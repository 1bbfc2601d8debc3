//! The fixed-point estimator.

use minesweeper_core::probability::fpga_bp::{
    bp_solve, update_factor_messages, FlatGraph, FpgaBp, Fxp,
};
use minesweeper_core::probability::ProbabilityStrategy;
use minesweeper_core::{CellContent, CellState, Minesweeper};

fn from_f64(v: f64) -> Fxp {
    Fxp((v * 65536.0).round() as i32)
}

fn to_f64(v: Fxp) -> f64 {
    v.0 as f64 / 65536.0
}

#[test]
fn fxp_roundtrip() {
    for v in [0.0, 0.25, 0.5, 0.75, 1.0] {
        let f = from_f64(v);
        let back = to_f64(f);
        assert!((back - v).abs() < 1e-4, "roundtrip failed for {v}: got {back}");
    }
    assert_eq!(Fxp::from_ratio(1, 4), from_f64(0.25));
    assert_eq!(Fxp::from_ratio(3, 3), Fxp::one());
}

#[test]
fn fxp_mul() {
    let a = from_f64(0.5);
    let b = from_f64(0.4);
    let c = a.mul(b);
    assert!((to_f64(c) - 0.2).abs() < 1e-3, "0.5 * 0.4 = {:?}", to_f64(c));
}

#[test]
fn fxp_complement() {
    let a = from_f64(0.3);
    let c = a.complement();
    assert!((to_f64(c) - 0.7).abs() < 1e-3);
}

#[test]
fn single_constraint_converges() {
    // One constraint: 2 cells, 1 must be a mine. Each cell has probability 0.5.
    let constraints = vec![(vec![0usize, 1usize], 1usize)];
    let n_cells = 2;
    let prior = from_f64(0.5);

    let graph = FlatGraph::build(&constraints, n_cells);
    let beliefs = bp_solve(&graph, prior);

    assert_eq!(graph.n_components, 1);
    for b in &beliefs {
        let p = to_f64(*b);
        assert!((p - 0.5).abs() < 0.01, "expected 0.5 got {p}");
    }
}

#[test]
fn certain_mine_constraint() {
    // One constraint: 1 cell, 1 must be a mine.
    let constraints = vec![(vec![0usize], 1usize)];
    let n_cells = 1;
    let prior = from_f64(0.5);

    let graph = FlatGraph::build(&constraints, n_cells);
    let beliefs = bp_solve(&graph, prior);

    let p = to_f64(beliefs[0]);
    assert!(p > 0.95, "expected ≈1.0 got {p}");
}

#[test]
fn certain_safe_constraint() {
    // One constraint: 1 cell, no mine.
    let constraints = vec![(vec![0usize], 0usize)];
    let n_cells = 1;
    let prior = from_f64(0.5);

    let graph = FlatGraph::build(&constraints, n_cells);
    let beliefs = bp_solve(&graph, prior);

    let p = to_f64(beliefs[0]);
    assert!(p < 0.05, "expected ≈0.0 got {p}");
}

#[test]
fn two_independent_components() {
    // Cells 0,1 with sum 1: each 0.5. Cells 2,3 with sum 2: each 1.0.
    let constraints = vec![(vec![0, 1], 1), (vec![2, 3], 2)];
    let graph = FlatGraph::build(&constraints, 4);
    assert_eq!(graph.n_components, 2);

    let beliefs = bp_solve(&graph, from_f64(0.5));
    assert!((to_f64(beliefs[0]) - 0.5).abs() < 0.02);
    assert!((to_f64(beliefs[1]) - 0.5).abs() < 0.02);
    assert!(to_f64(beliefs[2]) > 0.95);
    assert!(to_f64(beliefs[3]) > 0.95);
}

#[test]
fn a_cell_without_numbers_keeps_the_prior() {
    let graph = FlatGraph::build(&vec![(vec![0, 1], 1)], 3);
    let beliefs = bp_solve(&graph, Fxp(20000));
    assert_eq!(beliefs[2], Fxp(20000));
}

#[test]
fn fixed_point_arithmetic_is_exact() {
    assert_eq!(Fxp(3).add(Fxp(4)), Fxp(7));
    assert_eq!(Fxp(65530).add(Fxp(100)), Fxp::one());
    assert_eq!(Fxp(32768).mul(Fxp(32768)), Fxp(16384));
    assert_eq!(Fxp(16384).complement(), Fxp(49152));
    assert_eq!(Fxp(-5).clamp(Fxp(0), Fxp(65536)), Fxp(0));
    assert_eq!(Fxp(70000).clamp(Fxp(0), Fxp(65536)), Fxp(65536));
    assert_eq!(Fxp(5).clamp(Fxp(0), Fxp(65536)), Fxp(5));
}

#[test]
fn a_fresh_board_reads_the_prior_everywhere() {
    let game = Minesweeper::new(4, 4, 4);
    let grid = FpgaBp::new().calculate(&game).expect("there is a problem to solve");
    for row in &grid {
        for value in row {
            assert_eq!(*value, Fxp(16384));
        }
    }
    assert!(FpgaBp::new().calculate(&Minesweeper::new(2, 2, 5)).is_none());
}

#[test]
fn a_certain_mine_reads_one() {
    let mut game = Minesweeper::new(2, 2, 1);
    game.grid[0][0].content = CellContent::Mine;
    for (x, y) in [(1, 0), (0, 1), (1, 1)] {
        game.grid[y][x].content = CellContent::Empty(1);
        game.grid[y][x].state = CellState::Visible;
    }
    game.mines_generated = true;
    let grid = FpgaBp::new().calculate(&game).expect("there is a problem to solve");
    assert_eq!(grid[0][0], Fxp::one());
    assert_eq!(grid[1][1], Fxp::zero());
}

#[test]
fn components_do_not_interact() {
    let alone = bp_solve(&FlatGraph::build(&vec![(vec![0, 1, 2], 1), (vec![1, 2], 1)], 5), Fxp(9000));
    let both = bp_solve(
        &FlatGraph::build(&vec![(vec![0, 1, 2], 1), (vec![3, 4], 2), (vec![1, 2], 1)], 5),
        Fxp(9000),
    );
    assert_eq!(alone[0..3], both[0..3]);
    assert_ne!(alone[3], both[3]);
}

#[test]
fn unused_slots_keep_their_messages() {
    let graph = FlatGraph::build(&vec![(vec![0, 1, 2], 1)], 3);
    let belief = vec![Fxp::half(); 3];
    let mut mine = vec![Fxp(7); 8];
    let mut safe = vec![Fxp(9); 8];
    update_factor_messages(&graph, 0, &belief, &mut mine, &mut safe);
    for j in 0..3 {
        // Of the two other cells none is a mine, or one of them.
        assert_eq!((mine[j].0, safe[j].0), (16384, 32768));
    }
    for j in 3..8 {
        assert_eq!((mine[j].0, safe[j].0), (7, 9));
    }
}

#[test]
fn a_cell_without_numbers_carries_label_zero() {
    let graph = FlatGraph::build(&vec![(vec![1, 2], 1), (vec![4, 5], 1)], 6);
    assert_eq!(graph.n_components, 2);
    assert_eq!(graph.x_component, [0, 0, 0, 0, 1, 1]);
}
