//! A game in a window: estimators report in the background, and the board is drawn with
//! what is known so far.

use vstd::prelude::*;
use crate::autoplay;
use crate::moves;
use crate::moves::Move;
use crate::big_nat::BigNat;
use crate::board;
use crate::board::{Cell, CellContent, CellState, GameState, Minesweeper};
use crate::counting;
use crate::layouts;
use crate::probability::estimate::Estimate;
use crate::probability::setup;
use crate::probability::{SimUpdate, Strategy};
use crate::readout;
use crate::settings::Settings;
use crate::status;
use crate::text;

verus! {

/// What one strategy has reported.
pub struct Lane {
    pub probs: Estimate,
    /// Whether `probs` is of the board as it is.
    pub has_data: bool,
    /// Whether the strategy has finished.
    pub done: bool,
    pub status: String,
}

/// A game in a window.
pub struct Window {
    pub game: Minesweeper,
    /// Whether cells that are never mines are to be opened automatically.
    pub auto_reveal: bool,
    /// Whether a neural network reports too.
    pub with_network: bool,
    pub mc: Lane,
    pub cs: Lane,
    pub nn: Lane,
    /// The most trustworthy estimate so far.
    pub probs: Estimate,
    /// How trustworthy it is.
    pub probs_priority: u8,
    /// Whether strategies are running.
    pub listening: bool,
}

// ---------------------------------------------------------------------------
// Reports
// ---------------------------------------------------------------------------

/// The strategy that reports.
pub open spec fn reporter(update: SimUpdate<Estimate>) -> Strategy {
    match update {
        SimUpdate::Progress { strategy, .. } => strategy,
        SimUpdate::Done { strategy, .. } => strategy,
    }
}

/// What it has found.
pub open spec fn found(update: SimUpdate<Estimate>) -> usize {
    match update {
        SimUpdate::Progress { valid, .. } => valid,
        SimUpdate::Done { valid, .. } => valid,
    }
}

/// The estimate that comes with it.
pub open spec fn enclosed(update: SimUpdate<Estimate>) -> Estimate {
    match update {
        SimUpdate::Progress { probs, .. } => probs,
        SimUpdate::Done { probs, .. } => probs,
    }
}

/// What a strategy's line says after a report.
pub open spec fn report_words(update: SimUpdate<Estimate>) -> Seq<char> {
    match update {
        SimUpdate::Progress { strategy, attempts, valid, max_attempts, memory_bytes, .. } => {
            if strategy == Strategy::MonteCarlo {
                status::sampling_words(
                    valid as nat,
                    attempts as nat,
                    max_attempts as nat,
                    memory_bytes as nat,
                )
            } else {
                status::search_words(valid as nat, attempts as nat, memory_bytes as nat)
            }
        },
        SimUpdate::Done { strategy, attempts, valid, memory_bytes, .. } => {
            if strategy == Strategy::MonteCarlo {
                status::line(
                    "✓ MC: "@,
                    valid as nat,
                    " valid  /  "@,
                    attempts as nat,
                    " sampled"@,
                    memory_bytes as nat,
                )
            } else if strategy == Strategy::ConstraintSearch {
                status::line(
                    "✓ CS: "@,
                    valid as nat,
                    " layouts / "@,
                    attempts as nat,
                    " steps"@,
                    memory_bytes as nat,
                )
            } else {
                status::network_words(valid as nat, memory_bytes as nat)
            }
        },
    }
}

/// Whether a report means something: a network reports only once, at its end.
pub open spec fn counts(update: SimUpdate<Estimate>) -> bool {
    !(update is Progress && reporter(update) == Strategy::NeuralNetwork)
}

/// Whether a lane is what it was after a report of its strategy.
pub open spec fn heard(
    before: Lane,
    update: SimUpdate<Estimate>,
    after: Lane,
    width: int,
    height: int,
) -> bool {
    if !counts(update) {
        after == before
    } else {
        &&& after.has_data == (before.has_data || found(update) > 0)
        &&& after.done == (before.done || update is Done)
        &&& after.status@ == report_words(update)
        &&& if found(update) > 0 {
            after.probs.same(enclosed(update), width, height)
        } else {
            after.probs == before.probs
        }
    }
}

impl Window {
    /// Everything fits the board, which can be played.
    pub open spec fn wf(self) -> bool {
        let w = self.game.width as int;
        let h = self.game.height as int;
        &&& moves::healthy(self.game)
        &&& 3 <= w <= 50
        &&& 3 <= h <= 50
        &&& self.probs.wf(w, h)
        &&& self.mc.probs.wf(w, h)
        &&& self.cs.probs.wf(w, h)
        &&& self.nn.probs.wf(w, h)
    }

    /// What is heard of a strategy.
    pub open spec fn lane(self, strategy: Strategy) -> Lane {
        match strategy {
            Strategy::MonteCarlo => self.mc,
            Strategy::ConstraintSearch => self.cs,
            Strategy::NeuralNetwork => self.nn,
        }
    }

    /// Whether everything but the lanes and the best estimate is the same.
    pub open spec fn same_frame(self, other: Window) -> bool {
        &&& self.game == other.game
        &&& self.auto_reveal == other.auto_reveal
        &&& self.with_network == other.with_network
        &&& self.listening == other.listening
    }

    /// Whether `after` is this window after a report, and whether the best estimate has
    /// changed. An estimate takes the place of one that is no more trustworthy.
    pub open spec fn told(
        self,
        update: SimUpdate<Estimate>,
        after: Window,
        changed: bool,
    ) -> bool {
        let w = self.game.width as int;
        let h = self.game.height as int;
        let from = reporter(update);
        &&& after.same_frame(self)
        &&& forall|s: Strategy|
            s != from ==> #[trigger] after.lane(s) == self.lane(s)
        &&& heard(self.lane(from), update, after.lane(from), w, h)
        &&& changed == (counts(update) && found(update) > 0 && from.rank() >= self.probs_priority)
        &&& if changed {
            after.probs_priority == from.rank() && after.probs.same(enclosed(update), w, h)
        } else {
            after.probs_priority == self.probs_priority && after.probs == self.probs
        }
    }

    /// Whether all strategies have finished.
    pub open spec fn all_done(self) -> bool {
        self.mc.done && self.cs.done && (self.with_network ==> self.nn.done)
    }

    /// Takes an estimate as the best one, unless there is a more trustworthy one. Returns
    /// whether it was taken.
    fn try_update_probs(&mut self, strategy: Strategy, new_probs: Estimate) -> (taken: bool)
        requires
            old(self).wf(),
            new_probs.wf(old(self).game.width as int, old(self).game.height as int),
        ensures
            final(self).wf(),
            final(self).same_frame(*old(self)),
            final(self).mc == old(self).mc,
            final(self).cs == old(self).cs,
            final(self).nn == old(self).nn,
            taken == (strategy.rank() >= old(self).probs_priority),
            taken ==> final(self).probs == new_probs && final(self).probs_priority
                == strategy.rank(),
            !taken ==> final(self).probs == old(self).probs && final(self).probs_priority == old(self).probs_priority,
    {
        if strategy.priority() >= self.probs_priority {
            self.probs = new_probs;
            self.probs_priority = strategy.priority();
            true
        } else {
            false
        }
    }

    /// Takes one report. Returns whether the best estimate has changed.
    pub fn hear(&mut self, update: SimUpdate<Estimate>) -> (changed: bool)
        requires
            old(self).wf(),
            enclosed(update).wf(old(self).game.width as int, old(self).game.height as int),
        ensures
            final(self).wf(),
            old(self).told(update, *final(self), changed),
    {
        let (w, h): (usize, usize) = (self.game.width, self.game.height);
        let (strategy, valid, probs, done, line): (Strategy, usize, Estimate, bool, String) =
            match update {
            SimUpdate::Progress {
                strategy,
                attempts,
                valid,
                max_attempts,
                memory_bytes,
                probs,
            } => {
                let line: String = match strategy {
                    Strategy::MonteCarlo => status::sampling_progress(
                        valid,
                        attempts,
                        max_attempts,
                        memory_bytes,
                    ),
                    Strategy::ConstraintSearch => status::search_progress(
                        valid,
                        attempts,
                        memory_bytes,
                    ),
                    Strategy::NeuralNetwork => {
                        return false;
                    },
                };
                (strategy, valid, probs, false, line)
            },
            SimUpdate::Done { strategy, attempts, valid, memory_bytes, probs } => {
                let line: String = match strategy {
                    Strategy::MonteCarlo => status::sampling_done(valid, attempts, memory_bytes),
                    Strategy::ConstraintSearch => status::search_done(
                        valid,
                        attempts,
                        memory_bytes,
                    ),
                    Strategy::NeuralNetwork => status::network_done(valid, memory_bytes),
                };
                (strategy, valid, probs, true, line)
            },
        };
        let lane: &mut Lane = match strategy {
            Strategy::MonteCarlo => &mut self.mc,
            Strategy::ConstraintSearch => &mut self.cs,
            Strategy::NeuralNetwork => &mut self.nn,
        };
        lane.status = line;
        if done {
            lane.done = true;
        }
        if valid == 0 {
            return false;
        }
        lane.probs = probs.copy(w, h);
        lane.has_data = true;
        self.try_update_probs(strategy, probs)
    }
}

// ---------------------------------------------------------------------------
// Playing
// ---------------------------------------------------------------------------

/// Whether strategies are to be started for a board: while it is played and its mines are
/// placed.
pub open spec fn in_play(game: Minesweeper) -> bool {
    game.state == GameState::Playing && game.mines_generated
}

/// Whether windows differ at most as starting all strategies makes them differ, if that
/// is due; the lines stay as they are until the first report.
pub open spec fn started(before: Window, after: Window, launched: bool) -> bool {
    &&& after.game == before.game
    &&& after.auto_reveal == before.auto_reveal
    &&& after.with_network == before.with_network
    &&& after.probs == before.probs
    &&& after.mc.probs == before.mc.probs && after.mc.status == before.mc.status
    &&& after.cs.probs == before.cs.probs && after.cs.status == before.cs.status
    &&& after.nn.probs == before.nn.probs && after.nn.status == before.nn.status
    &&& launched == in_play(before.game)
    &&& if launched {
        &&& after.listening
        &&& after.probs_priority == 0
        &&& !after.mc.has_data && !after.mc.done
        &&& !after.cs.has_data && !after.cs.done
        &&& !after.nn.has_data && !after.nn.done
    } else {
        after == before
    }
}

/// A lane that has heard nothing.
fn silent(settings: Settings) -> (lane: Lane)
    requires
        settings.playable(50),
    ensures
        lane.probs.wf(settings.width as int, settings.height as int),
        is_uniform(lane.probs, settings),
        !lane.has_data,
        !lane.done,
        lane.status@ == ""@,
{
    let status: String = String::new();
    proof {
        reveal_strlit("");
        assert(status@ =~= ""@);
        lemma_area(settings);
    }
    Lane {
        probs: Estimate::uniform(settings.width, settings.height, settings.mines),
        has_data: false,
        done: false,
        status,
    }
}

proof fn lemma_area(settings: Settings)
    requires
        settings.playable(50),
    ensures
        9 <= settings.width * settings.height <= 2500,
{
    assert(9 <= settings.width * settings.height <= 2500) by (nonlinear_arith)
        requires
            3 <= settings.width <= 50,
            3 <= settings.height <= 50,
    ;
}

/// Whether an estimate gives every cell the same share: all mines over all cells.
pub open spec fn is_uniform(probs: Estimate, settings: Settings) -> bool {
    &&& probs.total@ == settings.width * settings.height
    &&& forall|x: int, y: int|
        0 <= x < settings.width && 0 <= y < settings.height ==> #[trigger] probs.at(x, y)
            == settings.mines
}

impl Window {
    /// Whether this is a window in which a game has just begun.
    pub open spec fn is_new(self, settings: Settings) -> bool {
        &&& self.game.width == settings.width
        &&& self.game.height == settings.height
        &&& self.game.mines_count == settings.mines
        &&& self.game.state == GameState::Playing
        &&& !self.game.mines_generated
        &&& forall|x: int, y: int|
            self.game.has(x, y) ==> (#[trigger] self.game.at(x, y)).state == CellState::Hidden
        &&& is_uniform(self.probs, settings)
        &&& self.probs_priority == 0
        &&& !self.listening
        &&& forall|s: Strategy|
            {
                &&& is_uniform((#[trigger] self.lane(s)).probs, settings)
                &&& !self.lane(s).has_data
                &&& !self.lane(s).done
                &&& self.lane(s).status@ == ""@
            }
    }

    /// Begins a game.
    pub fn new(settings: Settings, auto_reveal: bool, with_network: bool) -> (window: Self)
        requires
            settings.playable(50),
        ensures
            window.wf(),
            window.is_new(settings),
            window.auto_reveal == auto_reveal,
            window.with_network == with_network,
    {
        proof {
            lemma_area(settings);
        }
        Self {
            game: moves::fresh(settings.width, settings.height, settings.mines),
            auto_reveal,
            with_network,
            mc: silent(settings),
            cs: silent(settings),
            nn: silent(settings),
            probs: Estimate::uniform(settings.width, settings.height, settings.mines),
            probs_priority: 0,
            listening: false,
        }
    }

    /// Begins another game of the size that was asked for.
    pub fn reset(&mut self, width: i32, height: i32, mines: i32)
        requires
            old(self).wf(),
        ensures
            final(self).wf(),
            exists|settings: Settings| #[trigger]
                final(self).is_new(settings) && settings == Settings::nearest(
                    if width < 0 {
                        50
                    } else {
                        width as int
                    },
                    if height < 0 {
                        50
                    } else {
                        height as int
                    },
                    if mines < 0 {
                        2500
                    } else {
                        mines as int
                    },
                    50,
                ),
            final(self).auto_reveal == old(self).auto_reveal,
            final(self).with_network == old(self).with_network,
    {
        let settings = Settings::from_signed(width, height, mines);
        *self = Self::new(settings, self.auto_reveal, self.with_network);
        assert(self.is_new(settings));
    }

    /// Makes ready for starting all strategies on the board, if that is due. Returns
    /// whether they are to be started.
    fn update_view(&mut self) -> (launch: bool)
        requires
            old(self).wf(),
        ensures
            final(self).wf(),
            started(*old(self), *final(self), launch),
    {
        if self.game.state != GameState::Playing || !self.game.mines_generated {
            return false;
        }
        self.listening = true;
        self.probs_priority = 0;
        self.mc.has_data = false;
        self.mc.done = false;
        self.cs.has_data = false;
        self.cs.done = false;
        self.nn.has_data = false;
        self.nn.done = false;
        true
    }

    /// Whether windows differ in the board only.
    pub open spec fn same_but_board(self, other: Window) -> bool {
        &&& self.auto_reveal == other.auto_reveal
        &&& self.with_network == other.with_network
        &&& self.mc == other.mc
        &&& self.cs == other.cs
        &&& self.nn == other.nn
        &&& self.probs == other.probs
        &&& self.probs_priority == other.probs_priority
        &&& self.listening == other.listening
    }

    /// Reveals the cell at an index, counted row by row. Returns whether strategies are
    /// to be started.
    pub fn reveal_index(&mut self, index: i32) -> (launch: bool)
        requires
            old(self).wf(),
            0 <= index < old(self).game.width * old(self).game.height,
        ensures
            final(self).wf(),
            exists|middle: Window|
                {
                    &&& middle.same_but_board(*old(self))
                    &&& moves::revealed(
                        old(self).game,
                        index as int % old(self).game.width as int,
                        index as int / old(self).game.width as int,
                        middle.game,
                    )
                    &&& #[trigger] started(middle, *final(self), launch)
                },
    {
        let (x, y): (usize, usize) = self.position(index);
        moves::reveal_on(&mut self.game, x, y);
        self.update_view()
    }

    /// Toggles the flag of the cell at an index, counted row by row. Returns whether
    /// strategies are to be started.
    pub fn flag_index(&mut self, index: i32) -> (launch: bool)
        requires
            old(self).wf(),
            0 <= index < old(self).game.width * old(self).game.height,
        ensures
            final(self).wf(),
            exists|middle: Window|
                {
                    &&& middle.same_but_board(*old(self))
                    &&& old(self).game.state != GameState::Playing ==> middle.game == old(self).game
                    &&& old(self).game.state == GameState::Playing ==> old(self).game.flag_toggled(
                        index as int % old(self).game.width as int,
                        index as int / old(self).game.width as int,
                        middle.game,
                    )
                    &&& #[trigger] started(middle, *final(self), launch)
                },
    {
        let (x, y): (usize, usize) = self.position(index);
        moves::flag_on(&mut self.game, x, y);
        self.update_view()
    }

    /// Column and row of an index.
    fn position(&self, index: i32) -> (position: (usize, usize))
        requires
            self.wf(),
            0 <= index < self.game.width * self.game.height,
        ensures
            position.0 == index as int % self.game.width as int,
            position.1 == index as int / self.game.width as int,
            self.game.has(position.0 as int, position.1 as int),
    {
        let at: usize = index as usize;
        let w: usize = self.game.width;
        proof {
            vstd::arithmetic::div_mod::lemma_fundamental_div_mod(at as int, w as int);
            let (q, r, h) = (at as int / w as int, at as int % w as int, self.game.height as int);
            assert(q < h) by (nonlinear_arith)
                requires
                    at == w * q + r,
                    r >= 0,
                    at < w * h,
                    w > 0,
            ;
        }
        (at % w, at / w)
    }

    /// Whether `after` is this window once the cells that the best estimate calls never
    /// mined have been opened one after the other, row by row, if that is wanted, the
    /// estimate is exact, and there are any.
    pub open spec fn opened(self, after: Window, launched: bool) -> bool {
        if !self.auto_reveal || self.probs_priority < Strategy::ConstraintSearch.rank()
            || !in_play(self.game) || autoplay::unmined(
            self.game,
            self.probs,
        ).len() == 0 {
            after == self && !launched
        } else {
            exists|middle: Window, moves: Seq<Move>|
                {
                    &&& middle.same_but_board(self)
                    &&& #[trigger] moves::leads(self.game, moves, middle.game)
                    &&& autoplay::only_open(moves, autoplay::unmined(self.game, self.probs))
                    &&& autoplay::opened_in_turn(
                        self.game,
                        autoplay::unmined(self.game, self.probs),
                        middle.game,
                        moves.len(),
                    )
                    &&& middle.game.state == GameState::Playing ==> autoplay::none_hidden(
                        middle.game,
                        autoplay::unmined(self.game, self.probs),
                    )
                    &&& #[trigger] started(middle, after, launched)
                }
        }
    }

    /// Opens every hidden cell that the best estimate calls never mined, if that is
    /// wanted. Returns whether strategies are to be started.
    ///
    /// Only the exact search proves anything: nothing is opened on the word of the others.
    ///
    /// One pass: on the new board the strategies start anew, and what they find may allow
    /// further ones.
    fn maybe_auto_reveal(&mut self) -> (launch: bool)
        requires
            old(self).wf(),
        ensures
            final(self).wf(),
            old(self).opened(*final(self), launch),
    {
        if !self.auto_reveal || self.probs_priority < Strategy::ConstraintSearch.priority() {
            return false;
        }
        if self.game.state != GameState::Playing || !self.game.mines_generated {
            return false;
        }
        let cells: Vec<(usize, usize)> = autoplay::list_certain(&self.game, &self.probs, false);
        if cells.len() == 0 {
            return false;
        }
        let ghost before = *self;
        let opened: usize = autoplay::reveal_all(&mut self.game, &cells);
        proof {
            moves::lemma_fair_same(before.game, self.game);
        }
        let ghost middle = *self;
        let launch: bool = self.update_view();
        proof {
            let moves = choose|moves: Seq<Move>| #[trigger]
                moves::leads(before.game, moves, middle.game) && autoplay::only_open(
                    moves,
                    cells@,
                ) && opened == moves.len();
            assert(moves::leads(before.game, moves, middle.game) && started(
                middle,
                *self,
                launch,
            ));
        }
        launch
    }
}

// ---------------------------------------------------------------------------
// Rounds of reports
// ---------------------------------------------------------------------------

/// Whether reports lead from window to window, and which of them change the best
/// estimate.
pub open spec fn told_all(
    windows: Seq<Window>,
    updates: Seq<SimUpdate<Estimate>>,
    changes: Seq<bool>,
) -> bool {
    &&& windows.len() == updates.len() + 1
    &&& changes.len() == updates.len()
    &&& forall|i: int|
        0 <= i < updates.len() ==> windows[i].told(
            #[trigger] updates[i],
            windows[i + 1],
            changes[i],
        )
}

/// What comes of a round of reports.
#[derive(Debug, Clone, Copy, PartialEq, Eq, Structural)]
pub struct Outcome {
    /// Whether the board is to be drawn again.
    pub changed: bool,
    /// Whether strategies are to be started on a new board.
    pub launch: bool,
}

impl Window {
    /// Whether `after` is this window, no longer listening once all strategies have
    /// finished.
    pub open spec fn closed(self, after: Window) -> bool {
        &&& after.same_but_board(
            (Window { listening: self.listening && !self.all_done(), ..self }),
        )
        &&& after.game == self.game
    }

    /// Whether `after` is this window after a round of reports.
    pub open spec fn round(
        self,
        windows: Seq<Window>,
        updates: Seq<SimUpdate<Estimate>>,
        changes: Seq<bool>,
        closed: Window,
        after: Window,
        outcome: Outcome,
    ) -> bool {
        &&& told_all(windows, updates, changes)
        &&& windows[0] == self
        &&& windows.last().closed(closed)
        &&& outcome.changed == changes.contains(true)
        &&& if outcome.changed {
            closed.opened(after, outcome.launch)
        } else {
            after == closed && !outcome.launch
        }
    }

    /// Takes all reports that have come in since the last time. Strategies that are more
    /// trustworthy override others once they have something to show.
    pub fn check_prob_update(&mut self, updates: Vec<SimUpdate<Estimate>>) -> (outcome: Outcome)
        requires
            old(self).wf(),
            forall|i: int|
                0 <= i < updates@.len() ==> enclosed(#[trigger] updates@[i]).wf(
                    old(self).game.width as int,
                    old(self).game.height as int,
                ),
        ensures
            final(self).wf(),
            !old(self).listening || updates@.len() == 0 ==> *final(self) == *old(self)
                && !outcome.changed && !outcome.launch,
            old(self).listening && updates@.len() > 0 ==> exists|
                windows: Seq<Window>,
                changes: Seq<bool>,
                closed: Window,
            | #[trigger]
                old(self).round(windows, updates@, changes, closed, *final(self), outcome),
    {
        if !self.listening || updates.len() == 0 {
            return Outcome { changed: false, launch: false };
        }
        let ghost start = *self;
        let ghost all = updates@;
        let ghost mut windows: Seq<Window> = seq![start];
        let ghost mut changes: Seq<bool> = Seq::empty();
        let mut any_change: bool = false;
        let mut left: Vec<SimUpdate<Estimate>> = updates;
        while left.len() > 0
            invariant
                self.wf(),
                self.same_frame(start),
                left@.len() <= all.len(),
                left@ == all.skip(all.len() - left@.len()),
                forall|i: int|
                    0 <= i < all.len() ==> enclosed(#[trigger] all[i]).wf(
                        start.game.width as int,
                        start.game.height as int,
                    ),
                told_all(windows, all.take(all.len() - left@.len()), changes),
                windows[0] == start,
                windows.last() == *self,
                any_change == changes.contains(true),
            decreases left@.len(),
        {
            let ghost k = all.len() - left@.len();
            assert(left@[0] == all[k]);
            let update: SimUpdate<Estimate> = left.remove(0);
            let changed: bool = self.hear(update);
            proof {
                let more = windows.push(*self);
                let flags = changes.push(changed);
                let heard = all.take(k + 1);
                assert forall|i: int| 0 <= i < heard.len() implies more[i].told(
                    #[trigger] heard[i],
                    more[i + 1],
                    flags[i],
                ) by {
                    if i < k {
                        assert(heard[i] == all.take(k)[i]);
                    }
                }
                assert(flags.contains(true) <==> changes.contains(true) || changed) by {
                    if changes.contains(true) {
                        let i = choose|i: int| 0 <= i < changes.len() && changes[i];
                        assert(flags[i]);
                    }
                    if changed {
                        assert(flags[k]);
                    }
                    if flags.contains(true) && !changed {
                        let i = choose|i: int| 0 <= i < flags.len() && flags[i];
                        assert(changes[i]);
                    }
                }
                windows = more;
                changes = flags;
                assert(left@ =~= all.skip(k + 1));
            }
            if changed {
                any_change = true;
            }
        }
        assert(all.take(all.len() as int) =~= all);
        if self.mc.done && self.cs.done && (!self.with_network || self.nn.done) {
            self.listening = false;
        }
        let ghost closed = *self;
        let launch: bool = if any_change {
            self.maybe_auto_reveal()
        } else {
            false
        };
        let outcome = Outcome { changed: any_change, launch };
        assert(start.round(windows, all, changes, closed, *self, outcome));
        outcome
    }
}

/// Reports never make the best estimate less trustworthy, and an exact one gives way to
/// nothing but another exact one.
pub proof fn law_trust_never_falls(
    before: Window,
    update: SimUpdate<Estimate>,
    after: Window,
    changed: bool,
)
    requires
        before.told(update, after, changed),
    ensures
        after.probs_priority >= before.probs_priority,
        before.probs_priority == 2 && reporter(update) != Strategy::ConstraintSearch ==> after.probs
            == before.probs,
{
}

/// Opening what the best estimate calls never mined does not lose a game, given that what
/// the exact search reported is exact.
pub proof fn law_opening_is_safe(before: Window, after: Window, launched: bool)
    requires
        before.wf(),
        before.opened(after, launched),
        before.game.state != GameState::Lost,
        setup::unopened(before.game).len() <= usize::MAX,
        autoplay::trusted(
            before.game,
            before.probs,
            before.probs_priority >= Strategy::ConstraintSearch.rank(),
        ),
    ensures
        after.game.state != GameState::Lost,
{
    if after != before {
        let cells = autoplay::unmined(before.game, before.probs);
        let (middle, taken) = choose|middle: Window, taken: Seq<Move>|
            {
                &&& middle.same_but_board(before)
                &&& #[trigger] moves::leads(before.game, taken, middle.game)
                &&& autoplay::only_open(taken, cells)
                &&& autoplay::opened_in_turn(before.game, cells, middle.game, taken.len())
                &&& middle.game.state == GameState::Playing ==> autoplay::none_hidden(
                    middle.game,
                    cells,
                )
                &&& #[trigger] started(middle, after, launched)
            };
        autoplay::lemma_exact_is_true(before.game, before.game, before.probs);
        let games = choose|games: Seq<Minesweeper>| #[trigger]
            moves::played(games, taken) && games[0] == before.game && games.last()
                == middle.game;
        assert forall|i: int| 0 <= i < taken.len() implies (#[trigger] taken[i]) is Open
            && !before.game.mine_at(taken[i]->Open_0 as int, taken[i]->Open_1 as int) by {
            let p = (taken[i]->Open_0, taken[i]->Open_1);
            assert(cells.contains(p));
            let k = choose|k: int| 0 <= k < cells.len() && cells[k] == p;
            assert(!before.game.mine_at(cells[k].0 as int, cells[k].1 as int));
        }
        moves::law_opening_no_mine_does_not_lose(games, taken);
    }
}

// ---------------------------------------------------------------------------
// Drawing
// ---------------------------------------------------------------------------

/// One cell as it is drawn.
pub struct CellView {
    pub text: String,
    pub color: String,
    pub bg_color: String,
    pub mc_prob_text: String,
    pub cs_prob_text: String,
    pub nn_prob_text: String,
    pub is_border: bool,
}

/// What is written on a cell.
pub open spec fn face(cell: Cell) -> Seq<char> {
    match cell.state {
        CellState::Hidden => ""@,
        CellState::Flagged => "F"@,
        CellState::Visible => match cell.content {
            CellContent::Mine => "*"@,
            CellContent::Empty(n) => if n > 0 {
                text::decimal(n as nat)
            } else {
                ""@
            },
        },
    }
}

/// The colour it is written in.
pub open spec fn face_colour(cell: Cell) -> Seq<char> {
    match cell.state {
        CellState::Hidden => "black"@,
        CellState::Flagged => "red"@,
        CellState::Visible => match cell.content {
            CellContent::Mine => "white"@,
            CellContent::Empty(n) => if n == 1 {
                "blue"@
            } else if n == 2 {
                "green"@
            } else if n == 3 {
                "red"@
            } else if n == 4 {
                "darkblue"@
            } else {
                "black"@
            },
        },
    }
}

/// The colour behind it.
pub open spec fn ground_colour(cell: Cell, part: nat, whole: nat) -> Seq<char> {
    if cell.state != CellState::Visible {
        readout::hex_colour(
            (readout::red(part, whole) as u8, readout::green(part, whole) as u8),
        )
    } else if cell.content == CellContent::Mine {
        "red"@
    } else {
        "#eee"@
    }
}

/// Whether a cell shows a number of mines.
pub open spec fn shows_number(cell: Cell) -> bool {
    cell.state == CellState::Visible && cell.content != CellContent::Mine && cell.content
        != CellContent::Empty(0)
}

/// Whether a cell is unopened and constrained directly: next to a visible number.
pub open spec fn constrained(game: Minesweeper, x: int, y: int) -> bool {
    &&& game.at(x, y).state != CellState::Visible
    &&& exists|i: int|
        0 <= i < game.around(x, y).len() && shows_number(
            #[trigger] game.at(game.around(x, y)[i].0 as int, game.around(x, y)[i].1 as int),
        )
}

/// What is written of a strategy on a cell: the share, where there is something to show.
pub open spec fn share_words(lane: Lane, cell: Cell, x: int, y: int) -> Seq<char> {
    if cell.state != CellState::Visible && lane.has_data {
        text::decimal(readout::percent(lane.probs.at(x, y), lane.probs.total@)) + "%"@
    } else {
        ""@
    }
}

impl CellView {
    /// Whether this is how a cell of a window is drawn.
    pub open spec fn shows(self, window: Window, x: int, y: int) -> bool {
        let cell = window.game.at(x, y);
        &&& self.text@ == face(cell)
        &&& self.color@ == face_colour(cell)
        &&& self.bg_color@ == ground_colour(cell, window.probs.at(x, y), window.probs.total@)
        &&& self.mc_prob_text@ == share_words(window.mc, cell, x, y)
        &&& self.cs_prob_text@ == share_words(window.cs, cell, x, y)
        &&& self.nn_prob_text@ == share_words(window.nn, cell, x, y)
        &&& self.is_border == constrained(window.game, x, y)
    }
}

/// Copies a piece of text.
fn written(words: &str) -> (out: String)
    ensures
        out@ == words@,
{
    let mut out: String = String::new();
    text::append_text(&mut out, words);
    assert(out@ =~= words@);
    out
}

/// Writes what stands on a cell.
fn write_face(cell: &Cell) -> (out: String)
    ensures
        out@ == face(*cell),
{
    match cell.state {
        CellState::Hidden => written(""),
        CellState::Flagged => written("F"),
        CellState::Visible => match cell.content {
            CellContent::Mine => written("*"),
            CellContent::Empty(n) => if n > 0 {
                let mut out: String = String::new();
                text::append_decimal(&mut out, n as u64);
                assert(out@ =~= text::decimal(n as nat));
                out
            } else {
                written("")
            },
        },
    }
}

/// Writes the colour of what stands on a cell.
fn write_face_colour(cell: &Cell) -> (out: String)
    ensures
        out@ == face_colour(*cell),
{
    match cell.state {
        CellState::Hidden => written("black"),
        CellState::Flagged => written("red"),
        CellState::Visible => match cell.content {
            CellContent::Mine => written("white"),
            CellContent::Empty(n) => match n {
                1 => written("blue"),
                2 => written("green"),
                3 => written("red"),
                4 => written("darkblue"),
                _ => written("black"),
            },
        },
    }
}

/// Whether a cell is unopened and next to a visible number.
fn is_constrained(game: &Minesweeper, x: usize, y: usize) -> (yes: bool)
    requires
        game.wf(),
        game.has(x as int, y as int),
    ensures
        yes == constrained(*game, x as int, y as int),
{
    if game.grid[y][x].state == CellState::Visible {
        return false;
    }
    let near: Vec<(usize, usize)> = board::neighbours(x, y, game.width, game.height);
    proof {
        board::lemma_neighbours(x as int, y as int, game.width, game.height);
    }
    for i in 0..near.len()
        invariant
            game.wf(),
            game.has(x as int, y as int),
            game.at(x as int, y as int).state != CellState::Visible,
            near@ == game.around(x as int, y as int),
            board::all_adjacent(
                near@,
                x as int,
                y as int,
                game.width as int,
                game.height as int,
            ),
            forall|k: int|
                0 <= k < i ==> !shows_number(
                    #[trigger] game.at(
                        game.around(x as int, y as int)[k].0 as int,
                        game.around(x as int, y as int)[k].1 as int,
                    ),
                ),
    {
        let (nx, ny): (usize, usize) = near[i];
        assert(near@[i as int].0 < game.width && near@[i as int].1 < game.height);
        let cell: &Cell = &game.grid[ny][nx];
        let number: u8 = match cell.content {
            CellContent::Empty(n) => n,
            CellContent::Mine => 0,
        };
        if cell.state == CellState::Visible && number > 0 {
            assert(shows_number(
                game.at(
                    game.around(x as int, y as int)[i as int].0 as int,
                    game.around(x as int, y as int)[i as int].1 as int,
                ),
            ));
            return true;
        }
    }
    false
}

/// Writes what a strategy says of a cell.
fn write_share(lane: &Lane, cell: &Cell, x: usize, y: usize, width: usize, height: usize) -> (out:
    String)
    requires
        lane.probs.wf(width as int, height as int),
        x < width,
        y < height,
    ensures
        out@ == share_words(*lane, *cell, x as int, y as int),
{
    if cell.state != CellState::Visible && lane.has_data {
        assert(lane.probs.mines@[y as int]@.len() == width);
        assert(lane.probs.mines@[y as int]@[x as int].wf());
        readout::percent_text(&lane.probs.mines[y][x], &lane.probs.total)
    } else {
        written("")
    }
}

impl Window {
    /// Draws one cell.
    fn render_cell(&self, x: usize, y: usize) -> (view: CellView)
        requires
            self.wf(),
            self.game.has(x as int, y as int),
        ensures
            view.shows(*self, x as int, y as int),
    {
        let (w, h): (usize, usize) = (self.game.width, self.game.height);
        let cell: &Cell = &self.game.grid[y][x];
        let bg_color: String = if cell.state != CellState::Visible {
            assert(self.probs.mines@[y as int]@.len() == w);
            assert(self.probs.mines@[y as int]@[x as int].wf());
            let weight: &BigNat = &self.probs.mines[y][x];
            readout::hex_colour_text(readout::tint(weight, &self.probs.total))
        } else {
            match cell.content {
                CellContent::Mine => written("red"),
                CellContent::Empty(_) => written("#eee"),
            }
        };
        CellView {
            text: write_face(cell),
            color: write_face_colour(cell),
            bg_color,
            mc_prob_text: write_share(&self.mc, cell, x, y, w, h),
            cs_prob_text: write_share(&self.cs, cell, x, y, w, h),
            nn_prob_text: write_share(&self.nn, cell, x, y, w, h),
            is_border: is_constrained(&self.game, x, y),
        }
    }

    /// Draws all cells, row by row.
    pub fn render_cells(&self) -> (views: Vec<CellView>)
        requires
            self.wf(),
        ensures
            views@.len() == self.game.width * self.game.height,
            forall|i: int|
                0 <= i < views@.len() ==> (#[trigger] views@[i]).shows(
                    *self,
                    i % self.game.width as int,
                    i / self.game.width as int,
                ),
    {
        let (w, h): (usize, usize) = (self.game.width, self.game.height);
        let mut views: Vec<CellView> = Vec::new();
        assert(w * h <= 2500) by (nonlinear_arith)
            requires
                w <= 50,
                h <= 50,
        ;
        for i in 0..w * h
            invariant
                self.wf(),
                w == self.game.width,
                h == self.game.height,
                w * h <= 2500,
                views@.len() == i,
                forall|k: int|
                    0 <= k < i ==> (#[trigger] views@[k]).shows(*self, k % w as int, k / w as int),
        {
            let (x, y): (usize, usize) = self.position(i as i32);
            views.push(self.render_cell(x, y));
        }
        views
    }

    /// How many ways there are to put the mines on the unopened cells, while the game is
    /// played; with a tick once the exact search has finished.
    pub open spec fn layout_words(self) -> Seq<char> {
        if self.game.state != GameState::Playing {
            ""@
        } else {
            (if self.cs.done {
                "✓ "@
            } else {
                ""@
            }) + readout::count_words(
                counting::binom(setup::unopened(self.game).len(), self.game.mines_count as nat),
            ) + " possible layouts"@
        }
    }

    /// Writes how many ways there are to put the mines on the unopened cells.
    pub fn layout_count(&self) -> (out: String)
        requires
            self.wf(),
        ensures
            out@ == self.layout_words(),
    {
        let mut out: String = String::new();
        proof {
            reveal_strlit("");
        }
        if self.game.state == GameState::Playing {
            if self.cs.done {
                text::append_text(&mut out, "✓ ");
            }
            let n: usize = setup::list_unopened(&self.game).len();
            let ways: BigNat = counting::combinations(n, self.game.mines_count);
            let count: String = readout::fmt_count(&ways);
            text::append_text(&mut out, count.as_str());
            text::append_text(&mut out, " possible layouts");
        }
        assert(out@ =~= self.layout_words());
        out
    }

    /// The line above the board.
    pub open spec fn status_words(self) -> Seq<char> {
        match self.game.state {
            GameState::Playing => "Mines: "@ + text::decimal(self.game.mines_count as nat),
            GameState::Won => "YOU WON!"@,
            GameState::Lost => "GAME OVER"@,
        }
    }

    /// Writes the line above the board.
    pub fn status_text(&self) -> (out: String)
        ensures
            out@ == self.status_words(),
    {
        let mut out: String = String::new();
        match self.game.state {
            GameState::Playing => {
                text::append_text(&mut out, "Mines: ");
                text::append_decimal(&mut out, self.game.mines_count as u64);
            },
            GameState::Won => text::append_text(&mut out, "YOU WON!"),
            GameState::Lost => text::append_text(&mut out, "GAME OVER"),
        }
        assert(out@ =~= self.status_words());
        out
    }
}

// ---------------------------------------------------------------------------
// Laws of a window
// ---------------------------------------------------------------------------

/// Whether a report has an estimate to show.
pub open spec fn has_news(update: SimUpdate<Estimate>) -> bool {
    counts(update) && found(update) > 0
}

/// Reports that come after leave the best estimate alone as long as each is less trustworthy
/// or has nothing to show.
proof fn lemma_stays_best(
    windows: Seq<Window>,
    updates: Seq<SimUpdate<Estimate>>,
    changes: Seq<bool>,
    i: int,
    k: int,
)
    requires
        told_all(windows, updates, changes),
        0 <= i <= k <= updates.len(),
        forall|j: int|
            i <= j < updates.len() ==> !has_news(#[trigger] updates[j]) || reporter(
                updates[j],
            ).rank() < windows[i].probs_priority,
    ensures
        windows[k].probs == windows[i].probs,
        windows[k].probs_priority == windows[i].probs_priority,
        windows[k].game == windows[i].game,
    decreases k - i,
{
    if k > i {
        lemma_stays_best(windows, updates, changes, i, k - 1);
        let u = updates[k - 1];
        assert(windows[k - 1].told(updates[k - 1], windows[k - 1 + 1], changes[k - 1]));
    }
}

/// Reports that come before never get above the most trustworthy of them.
proof fn lemma_trust_bound(
    windows: Seq<Window>,
    updates: Seq<SimUpdate<Estimate>>,
    changes: Seq<bool>,
    k: int,
    top: u8,
)
    requires
        told_all(windows, updates, changes),
        0 <= k <= updates.len(),
        windows[0].probs_priority <= top,
        forall|j: int|
            0 <= j < k ==> !has_news(#[trigger] updates[j]) || reporter(updates[j]).rank() <= top,
    ensures
        windows[k].probs_priority <= top,
        windows[k].game == windows[0].game,
    decreases k,
{
    if k > 0 {
        lemma_trust_bound(windows, updates, changes, k - 1, top);
        let u = updates[k - 1];
        assert(windows[k - 1].told(updates[k - 1], windows[k - 1 + 1], changes[k - 1]));
    }
}

/// Of all that was reported, the window shows the latest of the most trustworthy: the
/// estimate of a report that has something to show, is at least as trustworthy as all before
/// it and more so than all after it.
pub proof fn law_the_most_trustworthy_report_is_shown(
    windows: Seq<Window>,
    updates: Seq<SimUpdate<Estimate>>,
    changes: Seq<bool>,
    i: int,
)
    requires
        told_all(windows, updates, changes),
        0 <= i < updates.len(),
        has_news(updates[i]),
        windows[0].probs_priority <= reporter(updates[i]).rank(),
        forall|j: int|
            0 <= j < i ==> !has_news(#[trigger] updates[j]) || reporter(updates[j]).rank()
                <= reporter(updates[i]).rank(),
        forall|j: int|
            i < j < updates.len() ==> !has_news(#[trigger] updates[j]) || reporter(
                updates[j],
            ).rank() < reporter(updates[i]).rank(),
    ensures
        windows.last().probs.same(
            enclosed(updates[i]),
            windows[0].game.width as int,
            windows[0].game.height as int,
        ),
        windows.last().probs_priority == reporter(updates[i]).rank(),
        changes.contains(true),
{
    let rank = reporter(updates[i]).rank();
    lemma_trust_bound(windows, updates, changes, i, rank);
    assert(windows[i].told(updates[i], windows[i + 1], changes[i]));
    assert(changes[i]);
    lemma_stays_best(windows, updates, changes, i + 1, updates.len() as int);
}

/// Where nothing that is reported has something to show, the window goes on showing what it
/// showed.
pub proof fn law_empty_reports_change_nothing(
    windows: Seq<Window>,
    updates: Seq<SimUpdate<Estimate>>,
    changes: Seq<bool>,
)
    requires
        told_all(windows, updates, changes),
        forall|j: int| 0 <= j < updates.len() ==> !has_news(#[trigger] updates[j]),
    ensures
        windows.last().probs == windows[0].probs,
        windows.last().probs_priority == windows[0].probs_priority,
        !changes.contains(true),
{
    lemma_stays_best(windows, updates, changes, 0, updates.len() as int);
    if changes.contains(true) {
        let k = choose|k: int| 0 <= k < changes.len() && changes[k];
        assert(windows[k].told(updates[k], windows[k + 1], changes[k]));
    }
}

/// An exact estimate is more trustworthy than one of a network or of samples, and those are
/// alike.
pub proof fn law_only_the_exact_search_is_trusted_more()
    ensures
        Strategy::ConstraintSearch.rank() > Strategy::NeuralNetwork.rank(),
        Strategy::ConstraintSearch.rank() > Strategy::MonteCarlo.rank(),
        Strategy::NeuralNetwork.rank() == Strategy::MonteCarlo.rank(),
        Strategy::MonteCarlo.rank() > 0,
{
}

/// A report goes to the line of its own strategy and to no other.
pub proof fn law_a_report_goes_to_its_own_line(
    before: Window,
    update: SimUpdate<Estimate>,
    after: Window,
    changed: bool,
)
    requires
        before.told(update, after, changed),
    ensures
        after.game == before.game,
        reporter(update) != Strategy::MonteCarlo ==> after.mc == before.mc,
        reporter(update) != Strategy::ConstraintSearch ==> after.cs == before.cs,
        reporter(update) != Strategy::NeuralNetwork ==> after.nn == before.nn,
        reporter(update) == Strategy::MonteCarlo && has_news(update) ==> after.mc.has_data
            && after.mc.probs.same(
            enclosed(update),
            before.game.width as int,
            before.game.height as int,
        ),
        reporter(update) == Strategy::ConstraintSearch && has_news(update) ==> after.cs.has_data
            && after.cs.probs.same(
            enclosed(update),
            before.game.width as int,
            before.game.height as int,
        ),
        reporter(update) == Strategy::NeuralNetwork && has_news(update) ==> after.nn.has_data
            && after.nn.probs.same(
            enclosed(update),
            before.game.width as int,
            before.game.height as int,
        ),
        update is Done && reporter(update) == Strategy::MonteCarlo ==> after.mc.done,
        update is Done && reporter(update) == Strategy::ConstraintSearch ==> after.cs.done,
        update is Done && reporter(update) == Strategy::NeuralNetwork ==> after.nn.done,
        update is Progress ==> after.mc.done == before.mc.done && after.cs.done == before.cs.done
            && after.nn.done == before.nn.done,
{
    let from = reporter(update);
    if from != Strategy::MonteCarlo {
        assert(after.lane(Strategy::MonteCarlo) == before.lane(Strategy::MonteCarlo));
    }
    if from != Strategy::ConstraintSearch {
        assert(after.lane(Strategy::ConstraintSearch) == before.lane(Strategy::ConstraintSearch));
    }
    if from != Strategy::NeuralNetwork {
        assert(after.lane(Strategy::NeuralNetwork) == before.lane(Strategy::NeuralNetwork));
    }
}

/// Whether a text is the nearest whole percentage of a share.
pub open spec fn tells_share(words: Seq<char>, part: nat, whole: nat) -> bool {
    exists|pct: nat| #[trigger]
        text::decimal(pct) + "%"@ == words && 200 * part - whole <= 2 * (pct * whole) <= 200 * part
            + whole
}

/// What is drawn on an unopened cell: for each strategy that has something to show, its own
/// share; the colour is that of the best estimate. On an open cell stands its number, and no
/// share.
pub proof fn law_a_cell_is_drawn_as_it_is(view: CellView, window: Window, x: int, y: int)
    requires
        window.wf(),
        window.game.has(x, y),
        view.shows(window, x, y),
        window.mc.probs.at(x, y) <= window.mc.probs.total@,
        window.cs.probs.at(x, y) <= window.cs.probs.total@,
        window.nn.probs.at(x, y) <= window.nn.probs.total@,
    ensures
        ({
            let cell = window.game.at(x, y);
            let closed = cell.state != CellState::Visible;
            &&& closed && window.mc.has_data ==> tells_share(
                view.mc_prob_text@,
                window.mc.probs.at(x, y),
                window.mc.probs.total@,
            )
            &&& closed && window.cs.has_data ==> tells_share(
                view.cs_prob_text@,
                window.cs.probs.at(x, y),
                window.cs.probs.total@,
            )
            &&& closed && window.nn.has_data ==> tells_share(
                view.nn_prob_text@,
                window.nn.probs.at(x, y),
                window.nn.probs.total@,
            )
            &&& !closed || !window.mc.has_data ==> view.mc_prob_text@.len() == 0
            &&& !closed || !window.cs.has_data ==> view.cs_prob_text@.len() == 0
            &&& !closed || !window.nn.has_data ==> view.nn_prob_text@.len() == 0
            &&& closed ==> view.bg_color@ == readout::hex_colour(
                (
                    readout::red(window.probs.at(x, y), window.probs.total@) as u8,
                    readout::green(window.probs.at(x, y), window.probs.total@) as u8,
                ),
            )
            &&& cell.state == CellState::Flagged ==> view.text@ == seq!['F']
            &&& cell.state == CellState::Hidden ==> view.text@.len() == 0
            &&& !closed && cell.content == CellContent::Mine ==> view.text@ == seq!['*']
            &&& !closed ==> (cell.content matches CellContent::Empty(n) ==> text::number_read(
                view.text@,
            ) == n && (n == 0 ==> view.text@.len() == 0))
        }),
{
    reveal_strlit("");
    reveal_strlit("F");
    reveal_strlit("*");
    let cell = window.game.at(x, y);
    assert("F"@ =~= seq!['F']);
    assert("*"@ =~= seq!['*']);
    readout::law_shares_are_shown_to_the_nearest(
        window.mc.probs.at(x, y),
        window.mc.probs.total@,
    );
    readout::law_shares_are_shown_to_the_nearest(
        window.cs.probs.at(x, y),
        window.cs.probs.total@,
    );
    readout::law_shares_are_shown_to_the_nearest(
        window.nn.probs.at(x, y),
        window.nn.probs.total@,
    );
    if cell.state != CellState::Visible {
        lemma_tells(view.mc_prob_text@, window.mc, x, y);
        lemma_tells(view.cs_prob_text@, window.cs, x, y);
        lemma_tells(view.nn_prob_text@, window.nn, x, y);
    } else {
        match cell.content {
            CellContent::Empty(n) => {
                text::law_numbers_read_as_written(n as nat);
                assert(text::number_read(""@) == 0);
            },
            CellContent::Mine => {},
        }
    }
}

proof fn lemma_tells(words: Seq<char>, lane: Lane, x: int, y: int)
    requires
        lane.probs.total@ > 0,
        lane.probs.at(x, y) <= lane.probs.total@,
        lane.has_data ==> words == text::decimal(
            readout::percent(lane.probs.at(x, y), lane.probs.total@),
        ) + "%"@,
    ensures
        lane.has_data ==> tells_share(words, lane.probs.at(x, y), lane.probs.total@),
{
    readout::law_shares_are_shown_to_the_nearest(lane.probs.at(x, y), lane.probs.total@);
    let pct = readout::percent(lane.probs.at(x, y), lane.probs.total@);
    if lane.has_data {
        assert(text::decimal(pct) + "%"@ == words);
    }
}

/// Whether a cell of the board beside another one shows a number of mines.
pub open spec fn number_beside(game: Minesweeper, x: int, y: int, nx: int, ny: int) -> bool {
    &&& game.has(nx, ny)
    &&& board::adjacent((x, y), (nx, ny))
    &&& game.at(nx, ny).state == CellState::Visible
    &&& game.at(nx, ny).content matches CellContent::Empty(n) && n > 0
}

/// A cell is marked as constrained just where it is unopened and an open cell beside it shows
/// a number.
pub proof fn law_constrained_cells_touch_a_number(game: Minesweeper, x: int, y: int)
    requires
        game.has(x, y),
    ensures
        constrained(game, x, y) <==> game.at(x, y).state != CellState::Visible && exists|
            nx: int,
            ny: int,
        | #[trigger] number_beside(game, x, y, nx, ny),
{
    board::lemma_neighbours(x, y, game.width, game.height);
    let near = game.around(x, y);
    if constrained(game, x, y) {
        let i = choose|i: int|
            0 <= i < near.len() && shows_number(
                #[trigger] game.at(near[i].0 as int, near[i].1 as int),
            );
        assert(near[i].0 < game.width && board::adjacent((x, y), board::spot(near[i])));
        assert(number_beside(game, x, y, near[i].0 as int, near[i].1 as int));
    }
    if game.at(x, y).state != CellState::Visible && exists|nx: int, ny: int| #[trigger]
        number_beside(game, x, y, nx, ny) {
        let (nx, ny) = choose|nx: int, ny: int| #[trigger] number_beside(game, x, y, nx, ny);
        let q = (nx as usize, ny as usize);
        assert(board::spot(q) == (nx, ny));
        assert(near.contains(q));
        let i = choose|i: int| 0 <= i < near.len() && near[i] == q;
        assert(shows_number(game.at(near[i].0 as int, near[i].1 as int)));
    }
}

/// While the game is played, the window counts the ways to put all mines on the unopened
/// cells: as many as there are sets of so many of them.
pub proof fn law_the_layouts_are_counted(window: Window)
    requires
        window.game.state == GameState::Playing,
        !window.cs.done,
        setup::unopened(window.game).len() <= usize::MAX,
    ensures
        ({
            let n = setup::unopened(window.game).len();
            let all = layouts::with_mines(
                layouts::subsets(layouts::first_cells(n)),
                window.game.mines_count as nat,
            );
            &&& all.finite()
            &&& window.layout_words() == readout::count_words(all.len()) + " possible layouts"@
        }),
{
    let n = setup::unopened(window.game).len();
    layouts::lemma_first_cells(n);
    counting::lemma_subsets_count(layouts::first_cells(n), window.game.mines_count as nat);
    reveal_strlit("");
    let words = readout::count_words(
        counting::binom(n, window.game.mines_count as nat),
    );
    assert(""@ + words =~= words);
}

/// The small numbers are told apart by their colours, and from a flag and a mine by what is
/// written.
pub proof fn law_small_numbers_have_their_own_colours(a: Cell, b: Cell)
    requires
        a.state == CellState::Visible,
        b.state == CellState::Visible,
        a.content matches CellContent::Empty(n) && 1 <= n <= 4,
        b.content matches CellContent::Empty(n) && 1 <= n <= 4,
    ensures
        face_colour(a) == face_colour(b) <==> a.content == b.content,
{
    reveal_strlit("blue");
    reveal_strlit("green");
    reveal_strlit("red");
    reveal_strlit("darkblue");
    assert("blue"@.len() == 4 && "green"@.len() == 5 && "red"@.len() == 3 && "darkblue"@.len()
        == 8);
}

/// The window listens until every strategy that runs has finished.
pub proof fn law_the_window_listens_until_all_have_finished(window: Window, closed: Window)
    requires
        window.closed(closed),
        window.listening,
    ensures
        closed.listening <==> !window.mc.done || !window.cs.done || window.with_network
            && !window.nn.done,
        closed.game == window.game,
        closed.probs == window.probs,
{
}

/// A new board starts everything anew: the strategies are started just while the game is
/// played and its mines are placed, nothing that they said of the old board counts any
/// longer, and whatever is heard first is shown.
pub proof fn law_a_new_board_starts_anew(
    before: Window,
    after: Window,
    launched: bool,
    update: SimUpdate<Estimate>,
    next: Window,
    changed: bool,
)
    requires
        started(before, after, launched),
        after.told(update, next, changed),
        has_news(update),
    ensures
        launched <==> before.game.state == GameState::Playing && before.game.mines_generated,
        launched ==> changed && next.probs.same(
            enclosed(update),
            before.game.width as int,
            before.game.height as int,
        ),
        launched ==> after.listening && !after.mc.has_data && !after.cs.has_data
            && !after.nn.has_data && !after.mc.done && !after.cs.done && !after.nn.done,
        !launched ==> after == before,
{
}

/// With a wish for it and an exact estimate, a cell that is never mined does not stay hidden:
/// it is opened, unless the game is over before its turn comes.
pub proof fn law_what_is_never_mined_is_opened(
    before: Window,
    after: Window,
    launched: bool,
    x: usize,
    y: usize,
)
    requires
        before.wf(),
        before.opened(after, launched),
        before.auto_reveal,
        before.probs_priority >= 2,
        before.game.state == GameState::Playing,
        before.game.mines_generated,
        before.game.has(x as int, y as int),
        before.game.at(x as int, y as int).state == CellState::Hidden,
        before.probs.at(x as int, y as int) == 0,
    ensures
        after.game.state == GameState::Playing ==> after.game.at(x as int, y as int).state
            != CellState::Hidden,
{
    let cells = autoplay::unmined(before.game, before.probs);
    autoplay::law_only_none_and_all_are_certain(before.game, before.probs, x, y);
    assert(cells.contains((x, y)));
    let k = choose|k: int| 0 <= k < cells.len() && cells[k] == (x, y);
    let (middle, taken) = choose|middle: Window, taken: Seq<Move>|
        {
            &&& middle.same_but_board(before)
            &&& #[trigger] moves::leads(before.game, taken, middle.game)
            &&& autoplay::only_open(taken, cells)
            &&& autoplay::opened_in_turn(before.game, cells, middle.game, taken.len())
            &&& middle.game.state == GameState::Playing ==> autoplay::none_hidden(
                middle.game,
                cells,
            )
            &&& #[trigger] started(middle, after, launched)
        };
    assert(after.game == middle.game);
    if middle.game.state == GameState::Playing {
        assert(middle.game.at(cells[k].0 as int, cells[k].1 as int).state != CellState::Hidden);
    }
}

/// Nothing is opened without the wish for it, nor by an estimate that is not exact, nor where
/// it calls no hidden cell never mined.
pub proof fn law_nothing_is_opened_on_a_guess(before: Window, after: Window, launched: bool)
    requires
        before.opened(after, launched),
        !before.auto_reveal || before.probs_priority < 2 || forall|x: usize, y: usize|
            before.game.has(x as int, y as int) && (#[trigger] before.game.at(
                x as int,
                y as int,
            )).state == CellState::Hidden ==> before.probs.at(x as int, y as int) > 0,
    ensures
        after == before,
        !launched,
{
    let cells = autoplay::unmined(before.game, before.probs);
    if before.auto_reveal && before.probs_priority >= 2 && cells.len() > 0 {
        let p = cells[0];
        board::lemma_scan(
            autoplay::unmined_test(before.game, before.probs),
            before.game.width,
            before.game.height,
        );
        assert(cells.contains(p));
        assert(before.game.has(p.0 as int, p.1 as int));
        autoplay::law_only_none_and_all_are_certain(before.game, before.probs, p.0, p.1);
    }
}

} // verus!
