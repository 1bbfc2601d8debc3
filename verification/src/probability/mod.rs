//! Mine-probability estimators.

pub mod cache;
pub mod combine;
pub mod components;
pub mod consistent;
pub mod constraint_search;
pub mod estimate;
pub mod fpga_bp;
pub mod groups;
pub mod messages;
pub mod monte_carlo;
pub mod neural;
pub mod patch;
pub mod patch_cnn;
pub mod propagate;
pub mod reduce;
pub mod search;
pub mod setup;
pub mod slices;
pub mod unbiased;

pub use cache::SolutionCache;
pub use constraint_search::ConstraintSearch;
pub use estimate::Estimate;
pub use fpga_bp::FpgaBp;
pub use monte_carlo::MonteCarlo;
pub use patch_cnn::{BoardScorer, PatchCnn, WeightsError};

use vstd::prelude::*;
use crate::board;
use crate::board::Minesweeper;

verus! {

/// A way of estimating mine probabilities.
pub trait ProbabilityStrategy {
    /// What an estimate is made of.
    type Grid;

    /// Whether a board can be handed to this strategy.
    spec fn can_estimate(&self, game: Minesweeper) -> bool;

    /// Per-cell mine probabilities, or `None` when this strategy cannot answer.
    ///
    /// `None` is the whole point of the return type. A signature that hands back a
    /// grid whatever happens would say "I could not work it out" as a grid of zeros,
    /// which every caller reads as proof that every cell is safe.
    fn calculate(&mut self, game: &Minesweeper) -> (grid: Option<Self::Grid>)
        requires
            old(self).can_estimate(*game),
    ;
}

/// Cells whose contents follow from the visible numbers alone.
#[derive(Debug, Default, Clone, PartialEq, Eq)]
pub struct CertainCells {
    /// Unopened cells that must be mines.
    pub mines: Vec<(usize, usize)>,
    /// Unopened cells that cannot be mines, and are therefore safe to reveal.
    pub safe: Vec<(usize, usize)>,
}

/// The unopened cells that propagation proves to be mines, row by row. Nothing is proven
/// where more mines are left than cells to put them in.
pub open spec fn proven_mines(game: Minesweeper) -> Seq<(usize, usize)> {
    if setup::mines_left(game) > setup::unopened(game).len() {
        Seq::empty()
    } else {
        setup::picked(
            setup::unopened(game),
            propagate::listed(setup::board_known(game).mines, setup::unopened(game).len() as int),
        )
    }
}

/// The unopened cells that propagation proves to be safe, row by row.
pub open spec fn proven_safe(game: Minesweeper) -> Seq<(usize, usize)> {
    if setup::mines_left(game) > setup::unopened(game).len() {
        Seq::empty()
    } else {
        setup::picked(
            setup::unopened(game),
            propagate::listed(setup::board_known(game).safe, setup::unopened(game).len() as int),
        )
    }
}

/// Cells that propagation alone proves are mines or safe.
///
/// This is the cheap half of what the estimators do: local rules, applied until
/// nothing changes, without enumerating any layout. It finds less than a full
/// search, and never anything different: in every layout that agrees with the
/// numbers the listed mines are mines and the listed safe cells are not.
pub fn certain_cells(game: &Minesweeper) -> (cells: CertainCells)
    requires
        game.wf(),
    ensures
        setup::unopened(*game).len() <= usize::MAX,
        cells.mines@ == proven_mines(*game),
        cells.safe@ == proven_safe(*game),
        cells.mines@.len() <= setup::unopened(*game).len(),
        cells.safe@.len() <= setup::unopened(*game).len(),
        forall|i: int|
            0 <= i < cells.mines@.len() ==> setup::is_unopened(*game, #[trigger] cells.mines@[i]),
        forall|i: int|
            0 <= i < cells.safe@.len() ==> setup::is_unopened(*game, #[trigger] cells.safe@[i]),
        forall|layout: Set<(int, int)>, i: int| #[trigger]
            consistent::consistent(*game).contains(layout) && 0 <= i < cells.mines@.len()
                ==> layout.contains(board::spot(#[trigger] cells.mines@[i])),
        forall|layout: Set<(int, int)>, i: int| #[trigger]
            consistent::consistent(*game).contains(layout) && 0 <= i < cells.safe@.len()
                ==> !layout.contains(board::spot(#[trigger] cells.safe@[i])),
{
    match setup::SimSetup::build(game) {
        Some(set_up) => {
            proof {
                setup::lemma_settled_cells(*game, set_up);
                let n = setup::unopened(*game).len() as int;
                propagate::lemma_listed_len(setup::board_known(*game).mines, n);
                propagate::lemma_listed_len(setup::board_known(*game).safe, n);
                assert forall|layout: Set<(int, int)>| #[trigger]
                    consistent::consistent(*game).contains(layout) implies (forall|i: int|
                    0 <= i < set_up.certain_mines@.len() ==> layout.contains(
                        board::spot(#[trigger] set_up.certain_mines@[i]),
                    )) && (forall|i: int|
                    0 <= i < set_up.certain_safe@.len() ==> !layout.contains(
                        board::spot(#[trigger] set_up.certain_safe@[i]),
                    )) by {
                    consistent::law_certain_cells_are_never_wrong(*game, set_up, layout);
                }
            }
            CertainCells { mines: set_up.certain_mines, safe: set_up.certain_safe }
        },
        None => {
            let none = CertainCells { mines: Vec::new(), safe: Vec::new() };
            assert(none.mines@ =~= proven_mines(*game));
            assert(none.safe@ =~= proven_safe(*game));
            none
        },
    }
}

/// Which estimator produced a result.
#[derive(Clone, Copy, Debug, PartialEq, Eq, Hash, Structural)]
pub enum Strategy {
    /// Exact: counts the consistent layouts.
    ConstraintSearch,
    /// The neural approximation. Never authoritative: a guess to compare against the
    /// exact answer.
    NeuralNetwork,
    /// Sampled layouts.
    MonteCarlo,
}

impl Strategy {
    /// How trustworthy a result is.
    pub open spec fn rank(self) -> u8 {
        match self {
            Strategy::ConstraintSearch => 2,
            Strategy::NeuralNetwork => 1,
            Strategy::MonteCarlo => 1,
        }
    }

    /// Higher value = more trustworthy. Used to decide which result to display.
    pub fn priority(self) -> (priority: u8)
        ensures
            priority == self.rank(),
    {
        match self {
            Strategy::ConstraintSearch => 2,
            Strategy::NeuralNetwork => 1,
            Strategy::MonteCarlo => 1,
        }
    }
}

/// Progress report of a strategy; `G` is the kind of grid it hands out.
pub enum SimUpdate<G> {
    /// Periodic snapshot while the simulation is still running.
    Progress {
        strategy: Strategy,
        attempts: usize,
        valid: usize,
        max_attempts: usize,
        memory_bytes: usize,
        probs: G,
    },
    /// Sent once when the simulation finishes.
    Done { strategy: Strategy, attempts: usize, valid: usize, memory_bytes: usize, probs: G },
}

} // verus!
