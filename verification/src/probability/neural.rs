//! What a network run from outside is asked about a board, and what becomes of its
//! answers.

use vstd::prelude::*;
use crate::big_nat::BigNat;
use crate::board::Minesweeper;
use crate::capped;
use crate::counting;
use crate::probability::estimate;
use crate::probability::estimate::Estimate;
use crate::probability::patch;
use crate::probability::patch::{Fraction, PatchSource};
use crate::probability::setup;
use crate::probability::setup::SimSetup;
use crate::probability::{SimUpdate, Strategy};

verus! {

/// What there is to ask about a board.
pub enum Question {
    /// Nothing: more mines are left than cells to put them in.
    Impossible,
    /// Nothing: the numbers settle every cell.
    Settled(SimSetup),
    /// One patch for each open cell, one after the other.
    Cells(SimSetup, Vec<Fraction>),
}

impl Question {
    /// Whether this is what there is to ask about a board.
    pub open spec fn is_about(self, game: Minesweeper) -> bool {
        match self {
            Question::Impossible => setup::mines_left(game) > setup::unopened(game).len(),
            Question::Settled(set_up) => {
                &&& setup::mines_left(game) <= setup::unopened(game).len()
                &&& set_up.describes(game)
                &&& set_up.hidden_cells@.len() == 0
            },
            Question::Cells(set_up, batch) => {
                &&& setup::mines_left(game) <= setup::unopened(game).len()
                &&& set_up.describes(game)
                &&& set_up.hidden_cells@.len() > 0
                &&& batch@ == patch::patches_of(game, set_up.hidden_cells@)
            },
        }
    }

    /// How many answers it takes.
    pub open spec fn len(self) -> nat {
        match self {
            Question::Cells(set_up, _) => set_up.hidden_cells@.len(),
            _ => 0,
        }
    }

    /// Works out what to ask about a board.
    pub fn new(game: &Minesweeper) -> (question: Self)
        requires
            game.wf(),
            game.width * game.height <= usize::MAX,
        ensures
            question.is_about(*game),
    {
        match SimSetup::build(game) {
            None => Question::Impossible,
            Some(set_up) => {
                if set_up.hidden_cells.len() == 0 {
                    Question::Settled(set_up)
                } else {
                    let source = PatchSource::new(game);
                    let batch: Vec<Fraction> = source.batch(&set_up.hidden_cells);
                    proof {
                        patch::lemma_patches(*game, source, set_up.hidden_cells@);
                    }
                    Question::Cells(set_up, batch)
                }
            },
        }
    }

    /// Reports the network's answers, one for each open cell, in parts of `whole`. Cells
    /// that the numbers prove to be mines are reported as such, whatever the network
    /// would say.
    pub fn answered(&self, game: &Minesweeper, answers: &Vec<u64>, whole: u64) -> (update:
        SimUpdate<Estimate>)
        requires
            game.wf(),
            self.is_about(*game),
            answers@.len() >= self.len(),
            whole > 0,
        ensures
            update is Done,
            update->Done_strategy == Strategy::NeuralNetwork,
            update->Done_attempts == 1,
            update->Done_valid == self.len(),
            update->Done_probs.wf(game.width as int, game.height as int),
            update->Done_probs.total@ == if self is Cells {
                whole as nat
            } else {
                1
            },
            match *self {
                Question::Impossible => {
                    &&& update->Done_memory_bytes == 0
                    &&& forall|x: int, y: int|
                        game.has(x, y) ==> #[trigger] update->Done_probs.at(x, y) == 0
                },
                Question::Settled(set_up) => {
                    &&& update->Done_memory_bytes == capped::capped(setup::memory(set_up))
                    &&& forall|x: int, y: int|
                        game.has(x, y) ==> #[trigger] update->Done_probs.at(x, y)
                            == estimate::reported(
                            set_up,
                            Seq::empty(),
                            0,
                            (x as usize, y as usize),
                        )
                },
                Question::Cells(set_up, _) => {
                    &&& update->Done_memory_bytes == capped::capped(setup::memory(set_up))
                    &&& forall|x: int, y: int|
                        game.has(x, y) ==> #[trigger] update->Done_probs.at(x, y)
                            == estimate::reported(
                            set_up,
                            limited(answers@, whole, set_up.hidden_cells@.len()),
                            whole as nat,
                            (x as usize, y as usize),
                        )
                },
            },
    {
        let (set_up, total): (&SimSetup, u64) = match self {
            Question::Impossible => {
                return SimUpdate::Done {
                    strategy: Strategy::NeuralNetwork,
                    attempts: 1,
                    valid: 0,
                    memory_bytes: 0,
                    probs: estimate::empty_estimate(game.width, game.height),
                };
            },
            Question::Settled(set_up) => (set_up, 0),
            Question::Cells(set_up, _) => (set_up, whole),
        };
        let unopened: Vec<(usize, usize)> = setup::list_unopened(game);
        proof {
            assert(setup::unopened(*game).len() == unopened.len());
            estimate::lemma_fits(*game, *set_up);
        }
        let n: usize = set_up.hidden_cells.len();
        let mut counts: Vec<BigNat> = Vec::new();
        for i in 0..n
            invariant
                answers@.len() >= n,
                counting::poly_wf(counts@),
                counting::poly(counts@) =~= limited(answers@, whole, i as nat),
        {
            let answer: u64 = if answers[i] < whole {
                answers[i]
            } else {
                whole
            };
            let ghost before = counting::poly(counts@);
            counts.push(BigNat::from_u64(answer));
            assert(counting::poly(counts@) =~= before.push(answer as nat));
        }
        assert(counting::poly(counts@).len() == counts@.len());
        let probs: Estimate = estimate::build_probs(
            &counts,
            &BigNat::from_u64(total),
            set_up,
            game.width,
            game.height,
        );
        proof {
            if n == 0 {
                assert(counting::poly(counts@) =~= Seq::<nat>::empty());
            }
        }
        SimUpdate::Done {
            strategy: Strategy::NeuralNetwork,
            attempts: 1,
            valid: n,
            memory_bytes: setup::memory_estimate(set_up),
            probs,
        }
    }
}

/// The first `n` answers, none of them more than `whole`.
pub open spec fn limited(answers: Seq<u64>, whole: u64, n: nat) -> Seq<nat> {
    Seq::new(
        n,
        |i: int|
            if answers[i] < whole {
                answers[i] as nat
            } else {
                whole as nat
            },
    )
}

/// A network's answers go to the cells that were asked about: the `i`-th to the `i`-th open
/// cell, and no more than all of the whole. Proven mines read as certain, and every other
/// cell as none.
pub proof fn law_answers_go_where_they_were_asked(
    game: Minesweeper,
    set_up: SimSetup,
    answers: Seq<u64>,
    whole: u64,
    p: (usize, usize),
)
    requires
        set_up.describes(game),
        setup::unopened(game).len() <= usize::MAX,
        whole > 0,
        answers.len() >= set_up.hidden_cells@.len(),
    ensures
        ({
            let read = estimate::reported(
                set_up,
                limited(answers, whole, set_up.hidden_cells@.len()),
                whole as nat,
                p,
            );
            &&& read <= whole
            &&& set_up.certain_mines@.contains(p) ==> read == whole
            &&& !set_up.certain_mines@.contains(p) ==> (forall|i: int|
                0 <= i < set_up.hidden_cells@.len() && #[trigger] set_up.hidden_cells@[i] == p ==> (
                answers[i] <= whole ==> read == answers[i]) && (answers[i] > whole ==> read
                    == whole))
            &&& !set_up.certain_mines@.contains(p) && !set_up.hidden_cells@.contains(p) ==> read
                == 0
        }),
{
    estimate::lemma_fits(game, set_up);
    let hidden = set_up.hidden_cells@;
    if hidden.contains(p) {
        let k = setup::index_in(hidden, p);
        let i = choose|i: int| 0 <= i < hidden.len() && hidden[i] == p;
        assert(0 <= k < hidden.len() && hidden[k] == p);
        assert forall|i: int| 0 <= i < hidden.len() && #[trigger] hidden[i] == p implies i == k by {}
    }
}

/// Each open cell is asked about by its own patch: the `i`-th of the batch is the one around
/// the `i`-th cell.
pub proof fn law_each_cell_is_asked_about(
    game: Minesweeper,
    cells: Seq<(usize, usize)>,
    i: int,
    k: int,
)
    requires
        0 <= i < cells.len(),
        0 <= k < 648,
    ensures
        patch::patches_of(game, cells).len() == 648 * cells.len(),
        patch::patches_of(game, cells)[648 * i + k] == patch::patch_of(
            game,
            cells[i].0 as int,
            cells[i].1 as int,
        )[k],
    decreases cells.len(),
{
    let rest = cells.drop_last();
    let last = cells.last();
    lemma_batch_len(game, rest);
    let front = patch::patches_of(game, rest);
    if i < rest.len() {
        law_each_cell_is_asked_about(game, rest, i, k);
        assert(rest[i] == cells[i]);
        assert(patch::patches_of(game, cells)[648 * i + k] == front[648 * i + k]);
    } else {
        assert(patch::patches_of(game, cells)[648 * i + k] == patch::patch_of(
            game,
            last.0 as int,
            last.1 as int,
        )[k]);
    }
}

proof fn lemma_batch_len(game: Minesweeper, cells: Seq<(usize, usize)>)
    ensures
        patch::patches_of(game, cells).len() == 648 * cells.len(),
    decreases cells.len(),
{
    if cells.len() > 0 {
        lemma_batch_len(game, cells.drop_last());
    }
}

} // verus!
