//! A game in a terminal: keys move a cursor, reveal and flag; the board is drawn cell by
//! cell.

use vstd::prelude::*;
use crate::autoplay;
use crate::moves;
use crate::moves::Move;
use crate::big_nat::BigNat;
use crate::board::{Cell, CellContent, CellState, GameState, Minesweeper};
use crate::probability::consistent;
use crate::probability::constraint_search::{ConstraintSearch, DEFAULT_MAX_NODES};
use crate::probability::estimate::Estimate;
use crate::probability::setup;
use crate::probability::ProbabilityStrategy;
use crate::probability::SimUpdate;
use crate::readout;
use crate::session;
use crate::session::Run;
use crate::settings::Settings;
use crate::status;
use crate::text;

verus! {

// ---------------------------------------------------------------------------
// Asking the estimators
// ---------------------------------------------------------------------------

/// What is shown of the estimators.
pub struct Shown {
    pub probs: Estimate,
    /// Whether the probabilities are exact rather than sampled. Not a detail: a sampled
    /// zero only means that no draw happened to put a mine there, so nothing may be
    /// opened on it.
    pub exact: bool,
    pub mc_status: String,
    pub cs_status: String,
}

impl Shown {
    /// Whether this is what a search and, where it found nothing, sampling came to.
    pub open spec fn says(self, cs: Run, mc: Option<Run>) -> bool {
        &&& mc is Some <==> cs.valid == 0
        &&& self.exact == (cs.valid > 0)
        &&& self.probs == match mc {
            Some(run) => run.probs,
            None => cs.probs,
        }
        &&& self.mc_status@ == match mc {
            Some(run) => status::line(
                "MC: "@,
                run.valid as nat,
                " valid / "@,
                run.attempts as nat,
                " sampled"@,
                run.memory_bytes as nat,
            ),
            None => status::line("MC: "@, 0, " valid / "@, 0, " sampled"@, 0),
        }
        &&& self.cs_status@ == status::line(
            "CS: "@,
            cs.valid as nat,
            " layouts / "@,
            cs.attempts as nat,
            " steps"@,
            cs.memory_bytes as nat,
        )
    }

    /// Whether this may be shown of a board that a search was asked about, and `after` the
    /// search then.
    pub open spec fn describes(
        self,
        search: ConstraintSearch,
        game: Minesweeper,
        after: ConstraintSearch,
    ) -> bool {
        exists|cs: Run, mc: Option<Run>| #[trigger]
            self.says(cs, mc) && session::may_search(search, game, cs, after) && (
            mc matches Some(run) ==> session::may_sample(game, run))
    }

    /// Whether this may be shown of a board by a search with the default budget.
    pub open spec fn fits(self, game: Minesweeper) -> bool {
        exists|search: ConstraintSearch, after: ConstraintSearch|
            {
                &&& search.wf()
                &&& search.max_nodes == DEFAULT_MAX_NODES
                &&& #[trigger] self.describes(search, game, after)
            }
    }
}

/// Asks the exact search, and samples only where it comes back with nothing: sampling is
/// slower and less accurate.
pub fn compute_probs(exact: &mut ConstraintSearch, game: &Minesweeper) -> (shown: Shown)
    requires
        old(exact).can_estimate(*game),
    ensures
        final(exact).wf(),
        final(exact).max_nodes == old(exact).max_nodes,
        shown.describes(*old(exact), *game, *final(exact)),
        shown.probs.wf(game.width as int, game.height as int),
        autoplay::trusted(*game, shown.probs, shown.exact),
{
    let cs: Run = session::searched(exact, game);
    let ghost told = cs;
    let cs_status: String = status::search_result(cs.valid, cs.attempts, cs.memory_bytes);
    if cs.valid > 0 {
        let shown = Shown {
            probs: cs.probs,
            exact: true,
            mc_status: status::sampling_result(0, 0, 0),
            cs_status,
        };
        assert(shown.says(told, None));
        shown
    } else {
        let mc: Run = session::sampled(game);
        let ghost drawn = mc;
        let mc_status: String = status::sampling_result(mc.valid, mc.attempts, mc.memory_bytes);
        let shown = Shown { probs: mc.probs, exact: false, mc_status, cs_status };
        assert(shown.says(told, Some(drawn)));
        shown
    }
}

// ---------------------------------------------------------------------------
// Keys
// ---------------------------------------------------------------------------

/// A key that means something.
#[derive(Debug, Clone, Copy, PartialEq, Eq, Structural)]
pub enum Key {
    Up,
    Down,
    Left,
    Right,
    Reveal,
    Flag,
    Auto,
    Restart,
    Quit,
    Other,
}

/// A game in a terminal.
pub struct Console {
    pub settings: Settings,
    pub game: Minesweeper,
    pub cursor_x: usize,
    pub cursor_y: usize,
    pub auto_reveal: bool,
    /// One solver for the whole session: it keeps group solutions between moves.
    pub exact: ConstraintSearch,
    pub shown: Shown,
}

/// Whether a board comes of one turn of playing what can be proven on another one, by what
/// is shown of it.
pub open spec fn next_turn(
    before: Minesweeper,
    shown: Shown,
    first: bool,
    after: Minesweeper,
    any: bool,
) -> bool {
    &&& first || shown.fits(before)
    &&& autoplay::auto_revealed(before, shown.probs, shown.exact, after, any)
}

/// Whether boards come one of another by turns of playing what can be proven, each by what
/// is shown of it. Every turn opens something but, at the end, the last.
#[verifier::opaque]
pub open spec fn turns(games: Seq<Minesweeper>, shows: Seq<Shown>, ended: bool) -> bool {
    &&& games.len() == shows.len() + 1
    &&& forall|i: int|
        0 <= i < shows.len() ==> next_turn(
            games[i],
            #[trigger] shows[i],
            i == 0,
            games[i + 1],
            !ended || i < shows.len() - 1,
        )
}

/// Whether such turns lead from a board to another one, and to what is shown of it.
pub open spec fn turns_lead(
    before: Minesweeper,
    shown: Shown,
    after: Minesweeper,
    last: Shown,
) -> bool {
    exists|games: Seq<Minesweeper>, shows: Seq<Shown>|
        {
            &&& #[trigger] turns(games, shows, true)
            &&& games[0] == before
            &&& games.last() == after
            &&& shows.len() > 0
            &&& shows[0] == shown
            &&& shows.last() == last
        }
}

/// Whether a board comes from another one by playing what can be proven, turn by turn,
/// until nothing more can be opened. Each move is proven right by a board passed before
/// it. At the end neither propagation nor, where it is exact, what is shown gives another
/// cell to open.
pub open spec fn autoplayed(
    before: Minesweeper,
    shown: Shown,
    after: Minesweeper,
    last: Shown,
) -> bool {
    &&& turns_lead(before, shown, after, last)
    &&& if before.state != GameState::Playing || !before.mines_generated {
        after == before && last == shown
    } else {
        &&& exists|moves: Seq<Move>| #[trigger] autoplay::leads_on_proof(before, moves, after)
        &&& after.state != GameState::Lost
        &&& autoplay::flags_right(before, after)
        &&& after.state == GameState::Playing ==> {
            &&& autoplay::dry(after)
            &&& last.exact ==> autoplay::unmined(after, last.probs).len() == 0
        }
    }
}

/// One more turn.
proof fn lemma_next_turn(
    games: Seq<Minesweeper>,
    shows: Seq<Shown>,
    shown: Shown,
    after: Minesweeper,
    any: bool,
)
    requires
        turns(games, shows, false),
        next_turn(games.last(), shown, shows.len() == 0, after, any),
    ensures
        turns(games.push(after), shows.push(shown), !any),
{
    reveal(turns);
    let all = games.push(after);
    let more = shows.push(shown);
    assert forall|i: int| 0 <= i < more.len() implies next_turn(
        all[i],
        #[trigger] more[i],
        i == 0,
        all[i + 1],
        any || i < more.len() - 1,
    ) by {
        if i < shows.len() {
            assert(more[i] == shows[i]);
        }
    }
}

impl Console {
    /// The board can be played and has the size that was set, the cursor is on it, and
    /// what is shown fits it.
    pub open spec fn wf(self) -> bool {
        &&& self.settings.playable(50)
        &&& moves::healthy(self.game)
        &&& self.game.width == self.settings.width
        &&& self.game.height == self.settings.height
        &&& self.game.mines_count == self.settings.mines
        &&& self.cursor_x < self.game.width
        &&& self.cursor_y < self.game.height
        &&& self.exact.wf()
        &&& self.exact.max_nodes == DEFAULT_MAX_NODES
        &&& self.shown.probs.wf(self.game.width as int, self.game.height as int)
        &&& autoplay::trusted(self.game, self.shown.probs, self.shown.exact)
        &&& self.up_to_date()
    }

    /// What is shown is of this board, flags aside.
    pub open spec fn up_to_date(self) -> bool {
        exists|seen: Minesweeper| #[trigger]
            self.shown.fits(seen) && setup::shows_the_same(seen, self.game)
    }

    /// Whether only the board, and what is shown of it, may differ.
    pub open spec fn same_controls(self, other: Console) -> bool {
        &&& self.settings == other.settings
        &&& self.cursor_x == other.cursor_x
        &&& self.cursor_y == other.cursor_y
        &&& self.auto_reveal == other.auto_reveal
    }

    /// Starts a game.
    pub fn new(settings: Settings) -> (console: Self)
        requires
            settings.playable(50),
        ensures
            console.wf(),
            console.settings == settings,
            console.game.state == GameState::Playing,
            !console.game.mines_generated,
            console.cursor_x == 0,
            console.cursor_y == 0,
            !console.auto_reveal,
            exists|search: ConstraintSearch| #[trigger]
                console.shown.describes(search, console.game, console.exact) && search.is_new(
                    DEFAULT_MAX_NODES,
                ),
    {
        let game: Minesweeper = moves::fresh(settings.width, settings.height, settings.mines);
        let mut exact = ConstraintSearch::new();
        proof {
            lemma_small(game);
        }
        let ghost search = exact;
        let shown: Shown = compute_probs(&mut exact, &game);
        let console = Self {
            settings,
            game,
            cursor_x: 0,
            cursor_y: 0,
            auto_reveal: false,
            exact,
            shown,
        };
        assert(console.shown.describes(search, console.game, console.exact));
        assert(console.shown.fits(console.game));
        console
    }

    /// Asks the estimators about the board as it is.
    fn refresh(&mut self)
        requires
            old(self).settings.playable(50),
            moves::healthy(old(self).game),
            old(self).game.width == old(self).settings.width,
            old(self).game.height == old(self).settings.height,
            old(self).game.mines_count == old(self).settings.mines,
            old(self).cursor_x < old(self).game.width,
            old(self).cursor_y < old(self).game.height,
            old(self).exact.wf(),
            old(self).exact.max_nodes == DEFAULT_MAX_NODES,
        ensures
            final(self).wf(),
            final(self).same_controls(*old(self)),
            final(self).game == old(self).game,
            final(self).shown.describes(old(self).exact, old(self).game, final(self).exact),
            final(self).shown.fits(final(self).game),
    {
        proof {
            lemma_small(self.game);
        }
        let ghost search = self.exact;
        self.shown = compute_probs(&mut self.exact, &self.game);
        assert(self.shown.describes(search, self.game, self.exact));
        assert(self.shown.fits(self.game));
    }

    /// Plays what can be proven, as long as anything can be opened, if that is wanted.
    #[verifier::rlimit(50)]
    fn play_on(&mut self)
        requires
            old(self).wf(),
        ensures
            final(self).wf(),
            final(self).same_controls(*old(self)),
            old(self).auto_reveal ==> autoplayed(
                old(self).game,
                old(self).shown,
                final(self).game,
                final(self).shown,
            ),
            !old(self).auto_reveal ==> *final(self) == *old(self),
    {
        let ghost start = self.game;
        if !self.auto_reveal {
            return ;
        }
        let ghost mut moves: Seq<Move> = Seq::empty();
        let ghost mut games: Seq<Minesweeper> = seq![start];
        let ghost mut shows: Seq<Shown> = Seq::empty();
        proof {
            autoplay::lemma_on_proof_nowhere(start);
            assert(turns(games, shows, false)) by {
                reveal(turns);
            }
        }
        let mut more: bool = true;
        while more
            invariant
                self.wf(),
                self.same_controls(*old(self)),
                start == old(self).game,
                moves::healthy(start),
                turns(games, shows, !more),
                games.len() > 0,
                games[0] == start,
                games.last() == self.game,
                shows.len() == 0 ==> self.shown == old(self).shown,
                shows.len() > 0 ==> shows[0] == old(self).shown,
                more && shows.len() > 0 ==> self.shown.fits(self.game),
                !more ==> shows.len() > 0 && shows.last() == self.shown,
                start.state != GameState::Playing || !start.mines_generated ==> self.game == start
                    && self.shown == old(self).shown,
                start.state == GameState::Playing && start.mines_generated ==> {
                    &&& self.game.mines_generated
                    &&& self.game.same_frame(start)
                    &&& self.game.same_contents(start)
                    &&& autoplay::leads_on_proof(start, moves, self.game)
                    &&& self.game.state != GameState::Lost
                    &&& autoplay::flags_right(start, self.game)
                    &&& !more && self.game.state == GameState::Playing ==> {
                        &&& autoplay::dry(self.game)
                        &&& self.shown.exact ==> autoplay::unmined(
                            self.game,
                            self.shown.probs,
                        ).len() == 0
                    }
                },
            decreases
                    self.game.hidden_spots().len(),
                    (if more {
                        1int
                    } else {
                        0int
                    }),
        {
            let ghost before = *self;
            more = autoplay::apply_auto_reveal(
                &mut self.game,
                &self.shown.probs,
                self.shown.exact,
            );
            proof {
                lemma_next_turn(games, shows, before.shown, self.game, more);
                games = games.push(self.game);
                shows = shows.push(before.shown);
                if before.game.state == GameState::Playing && before.game.mines_generated {
                    let next = choose|next: Seq<Move>| #[trigger]
                        moves::leads(before.game, next, self.game) && more == (moves::opens(
                            next,
                        ) > 0) && (autoplay::trusted(
                            before.game,
                            before.shown.probs,
                            before.shown.exact,
                        ) ==> autoplay::leads_on_proof(before.game, next, self.game));
                    autoplay::lemma_on_proof_leads(start, moves, before.game);
                    autoplay::lemma_go_on(start, moves, before.game, next, self.game);
                    autoplay::lemma_on_proof_through(
                        start,
                        moves,
                        before.game,
                        next,
                        self.game,
                    );
                    moves = moves + next;
                    moves::lemma_leads_fewer(before.game, next, self.game);
                    if !more {
                        autoplay::lemma_trusted_same(
                            before.game,
                            self.game,
                            self.shown.probs,
                            self.shown.exact,
                        );
                        let seen = choose|seen: Minesweeper| #[trigger]
                            before.shown.fits(seen) && setup::shows_the_same(seen, before.game);
                        setup::lemma_shows_on(seen, before.game, self.game);
                        assert(self.shown.fits(seen));
                    }
                }
            }
            if more {
                self.refresh();
            }
        }
    }

    /// Handles a key. Returns whether it ends the session.
    #[verifier::rlimit(50)]
    pub fn press(&mut self, key: Key) -> (quit: bool)
        requires
            old(self).wf(),
        ensures
            final(self).wf(),
            quit == (key == Key::Quit),
            match key {
                Key::Quit | Key::Other => *final(self) == *old(self),
                Key::Up | Key::Down | Key::Left | Key::Right => old(self).moved(
                    key,
                    *final(self),
                ),
                Key::Reveal => {
                    &&& final(self).same_controls(*old(self))
                    &&& old(self).game.state == GameState::Playing
                        && !old(self).game.mines_generated ==> final(self).game.state
                        != GameState::Lost
                    &&& old(self).game.state != GameState::Playing ==> *final(self) == *old(self)
                    &&& old(self).game.state == GameState::Playing ==> exists|
                        middle: Minesweeper,
                        shown: Shown,
                    |
                        {
                            &&& #[trigger] moves::revealed(
                                old(self).game,
                                old(self).cursor_x as int,
                                old(self).cursor_y as int,
                                middle,
                            )
                            &&& #[trigger] shown.fits(middle)
                            &&& if old(self).auto_reveal {
                                autoplayed(middle, shown, final(self).game, final(self).shown)
                            } else {
                                final(self).game == middle && final(self).shown == shown
                            }
                        }
                },
                Key::Flag => {
                    &&& final(self).same_controls(*old(self))
                    &&& old(self).game.state != GameState::Playing ==> *final(self) == *old(self)
                    &&& old(self).game.state == GameState::Playing ==> exists|
                        middle: Minesweeper,
                        shown: Shown,
                    |
                        {
                            &&& #[trigger] old(self).game.flag_toggled(
                                old(self).cursor_x as int,
                                old(self).cursor_y as int,
                                middle,
                            )
                            &&& #[trigger] shown.fits(middle)
                            &&& if old(self).auto_reveal {
                                autoplayed(middle, shown, final(self).game, final(self).shown)
                            } else {
                                final(self).game == middle && final(self).shown == shown
                            }
                        }
                },
                Key::Auto => {
                    &&& final(self).auto_reveal == !old(self).auto_reveal
                    &&& final(self).settings == old(self).settings
                    &&& final(self).cursor_x == old(self).cursor_x
                    &&& final(self).cursor_y == old(self).cursor_y
                    &&& if final(self).auto_reveal {
                        autoplayed(
                            old(self).game,
                            old(self).shown,
                            final(self).game,
                            final(self).shown,
                        )
                    } else {
                        final(self).game == old(self).game && final(self).shown == old(self).shown
                    }
                },
                Key::Restart => {
                    &&& final(self).settings == old(self).settings
                    &&& final(self).auto_reveal == old(self).auto_reveal
                    &&& final(self).cursor_x == 0
                    &&& final(self).cursor_y == 0
                    &&& final(self).game.state == GameState::Playing
                    &&& !final(self).game.mines_generated
                    &&& final(self).shown.describes(
                        old(self).exact,
                        final(self).game,
                        final(self).exact,
                    )
                    &&& forall|x: int, y: int|
                        final(self).game.has(x, y) ==> (#[trigger] final(self).game.at(x, y)).state
                            == CellState::Hidden
                },
            },
    {
        match key {
            Key::Quit => {
                return true;
            },
            Key::Up => {
                if self.cursor_y > 0 {
                    self.cursor_y = self.cursor_y - 1;
                }
            },
            Key::Down => {
                if self.cursor_y < self.game.height - 1 {
                    self.cursor_y = self.cursor_y + 1;
                }
            },
            Key::Left => {
                if self.cursor_x > 0 {
                    self.cursor_x = self.cursor_x - 1;
                }
            },
            Key::Right => {
                if self.cursor_x < self.game.width - 1 {
                    self.cursor_x = self.cursor_x + 1;
                }
            },
            Key::Reveal => {
                if self.game.state == GameState::Playing {
                    moves::reveal_on(&mut self.game, self.cursor_x, self.cursor_y);
                    self.refresh();
                    let ghost middle = self.game;
                    assert(moves::revealed(
                        old(self).game,
                        old(self).cursor_x as int,
                        old(self).cursor_y as int,
                        middle,
                    ));
                    assert(self.shown.fits(middle));
                    self.play_on();
                }
            },
            Key::Flag => {
                if self.game.state == GameState::Playing {
                    moves::flag_on(&mut self.game, self.cursor_x, self.cursor_y);
                    self.refresh();
                    let ghost middle = self.game;
                    assert(old(self).game.flag_toggled(
                        old(self).cursor_x as int,
                        old(self).cursor_y as int,
                        middle,
                    ));
                    assert(self.shown.fits(middle));
                    self.play_on();
                }
            },
            Key::Auto => {
                self.auto_reveal = !self.auto_reveal;
                self.play_on();
            },
            Key::Restart => {
                self.game =
                moves::fresh(self.settings.width, self.settings.height, self.settings.mines);
                self.cursor_x = 0;
                self.cursor_y = 0;
                self.refresh();
            },
            Key::Other => {},
        }
        false
    }

    /// Whether `after` is this game with the cursor moved by a key, as far as the board
    /// goes.
    pub open spec fn moved(self, key: Key, after: Console) -> bool {
        &&& after.settings == self.settings
        &&& after.game == self.game
        &&& after.auto_reveal == self.auto_reveal
        &&& after.exact == self.exact
        &&& after.shown == self.shown
        &&& after.cursor_x == if key == Key::Left && self.cursor_x > 0 {
            self.cursor_x - 1
        } else if key == Key::Right && self.cursor_x + 1 < self.game.width {
            self.cursor_x + 1
        } else {
            self.cursor_x as int
        }
        &&& after.cursor_y == if key == Key::Up && self.cursor_y > 0 {
            self.cursor_y - 1
        } else if key == Key::Down && self.cursor_y + 1 < self.game.height {
            self.cursor_y + 1
        } else {
            self.cursor_y as int
        }
    }
}

/// A board in a terminal has few cells.
proof fn lemma_small(game: Minesweeper)
    requires
        game.width <= 50,
        game.height <= 50,
    ensures
        game.width * game.height <= 2500,
{
    assert(game.width * game.height <= 2500) by (nonlinear_arith)
        requires
            game.width <= 50,
            game.height <= 50,
    ;
}

// ---------------------------------------------------------------------------
// Drawing
// ---------------------------------------------------------------------------

/// The colour of what is written.
#[derive(Debug, Clone, Copy, PartialEq, Eq, Structural)]
pub enum Ink {
    Plain,
    Black,
    Blue,
    Green,
    Red,
    Yellow,
}

/// The colour behind it.
#[derive(Debug, Clone, Copy, PartialEq, Eq, Structural)]
pub enum Paper {
    Plain,
    White,
    /// The red part, and the green and blue part.
    Tint(u8, u8),
}

/// How a cell is written, three characters wide.
pub open spec fn symbol(cell: Cell) -> Seq<char> {
    match cell.state {
        CellState::Hidden => " . "@,
        CellState::Flagged => " F "@,
        CellState::Visible => match cell.content {
            CellContent::Mine => " * "@,
            CellContent::Empty(n) => if n == 0 {
                "   "@
            } else {
                " "@ + text::decimal(n as nat) + " "@
            },
        },
    }
}

/// The colour that a cell is written in.
pub open spec fn ink(cell: Cell, at_cursor: bool) -> Ink {
    if cell.state == CellState::Visible && cell.content == CellContent::Mine {
        Ink::Red
    } else if cell.state == CellState::Visible && cell.content == CellContent::Empty(1) {
        Ink::Blue
    } else if cell.state == CellState::Visible && cell.content == CellContent::Empty(2) {
        Ink::Green
    } else if cell.state == CellState::Visible && cell.content == CellContent::Empty(3) {
        Ink::Red
    } else if at_cursor {
        Ink::Black
    } else if cell.state == CellState::Flagged {
        Ink::Yellow
    } else {
        Ink::Plain
    }
}

/// The colour behind a cell: white at the cursor, elsewhere the more red the more likely
/// an unopened cell is a mine.
pub open spec fn paper(cell: Cell, at_cursor: bool, part: nat, whole: nat) -> Paper {
    if at_cursor {
        Paper::White
    } else if cell.state == CellState::Visible {
        Paper::Plain
    } else {
        Paper::Tint(readout::red(part, whole) as u8, readout::green(part, whole) as u8)
    }
}

/// How a cell is drawn.
pub struct Look {
    pub symbol: String,
    pub ink: Ink,
    pub paper: Paper,
}

/// Writes a cell, three characters wide.
fn write_symbol(cell: &Cell) -> (out: String)
    ensures
        out@ == symbol(*cell),
{
    let mut out: String = String::new();
    match cell.state {
        CellState::Hidden => text::append_text(&mut out, " . "),
        CellState::Flagged => text::append_text(&mut out, " F "),
        CellState::Visible => match cell.content {
            CellContent::Mine => text::append_text(&mut out, " * "),
            CellContent::Empty(n) => {
                if n == 0 {
                    text::append_text(&mut out, "   ");
                } else {
                    text::append_text(&mut out, " ");
                    text::append_decimal(&mut out, n as u64);
                    text::append_text(&mut out, " ");
                }
            },
        },
    }
    assert(out@ =~= symbol(*cell));
    out
}

impl Console {
    /// How the cell at a position is drawn.
    pub fn look(&self, x: usize, y: usize) -> (look: Look)
        requires
            self.wf(),
            self.game.has(x as int, y as int),
        ensures
            ({
                let cell = self.game.at(x as int, y as int);
                let here = x == self.cursor_x && y == self.cursor_y;
                &&& look.symbol@ == symbol(cell)
                &&& look.ink == ink(cell, here)
                &&& look.paper == paper(
                    cell,
                    here,
                    self.shown.probs.at(x as int, y as int),
                    self.shown.probs.total@,
                )
            }),
    {
        let cell: &Cell = &self.game.grid[y][x];
        let here: bool = x == self.cursor_x && y == self.cursor_y;
        let mut ink: Ink = if here {
            Ink::Black
        } else if cell.state == CellState::Flagged {
            Ink::Yellow
        } else {
            Ink::Plain
        };
        if cell.state == CellState::Visible {
            match cell.content {
                CellContent::Mine => {
                    ink = Ink::Red;
                },
                CellContent::Empty(n) => {
                    if n == 1 {
                        ink = Ink::Blue;
                    } else if n == 2 {
                        ink = Ink::Green;
                    } else if n == 3 {
                        ink = Ink::Red;
                    }
                },
            }
        }
        let paper: Paper = if here {
            Paper::White
        } else if cell.state == CellState::Visible {
            Paper::Plain
        } else {
            assert(self.shown.probs.mines@[y as int]@.len() == self.game.width);
            assert(self.shown.probs.mines@[y as int]@[x as int].wf());
            let weight: &BigNat = &self.shown.probs.mines[y][x];
            let (red, green): (u8, u8) = readout::tint(weight, &self.shown.probs.total);
            Paper::Tint(red, green)
        };
        Look { symbol: write_symbol(cell), ink, paper }
    }

    /// The line above the board.
    pub open spec fn title(self) -> Seq<char> {
        text::decimal(self.game.width as nat) + "x"@ + text::decimal(self.game.height as nat)
            + " board  |  Mines: "@ + text::decimal(self.game.mines_count as nat)
    }

    /// Writes the line above the board.
    pub fn write_title(&self) -> (out: String)
        ensures
            out@ == self.title(),
    {
        let mut out: String = String::new();
        text::append_decimal(&mut out, self.game.width as u64);
        text::append_text(&mut out, "x");
        text::append_decimal(&mut out, self.game.height as u64);
        text::append_text(&mut out, " board  |  Mines: ");
        text::append_decimal(&mut out, self.game.mines_count as u64);
        assert(out@ =~= self.title());
        out
    }

    /// The line below the board: the end of the game, or how likely there is a mine under
    /// the cursor.
    pub open spec fn verdict(self) -> Seq<char> {
        if self.game.state == GameState::Won {
            "YOU WON! Press Q to quit."@
        } else if self.game.state == GameState::Lost {
            "GAME OVER! Press Q to quit."@
        } else if self.game.at(self.cursor_x as int, self.cursor_y as int).state
            == CellState::Visible {
            ""@
        } else {
            "Mine probability here: "@ + readout::tenths(
                readout::per_mille(
                    self.shown.probs.at(self.cursor_x as int, self.cursor_y as int),
                    self.shown.probs.total@,
                ),
            ) + "%"@
        }
    }

    /// Writes the line below the board.
    pub fn write_verdict(&self) -> (out: String)
        requires
            self.wf(),
        ensures
            out@ == self.verdict(),
    {
        let mut out: String = String::new();
        let (x, y): (usize, usize) = (self.cursor_x, self.cursor_y);
        match self.game.state {
            GameState::Won => text::append_text(&mut out, "YOU WON! Press Q to quit."),
            GameState::Lost => text::append_text(&mut out, "GAME OVER! Press Q to quit."),
            GameState::Playing => {
                if self.game.grid[y][x].state != CellState::Visible {
                    assert(self.shown.probs.mines@[y as int]@.len() == self.game.width);
                    assert(self.shown.probs.mines@[y as int]@[x as int].wf());
                    let share: String = readout::fine_percent_text(
                        &self.shown.probs.mines[y][x],
                        &self.shown.probs.total,
                    );
                    text::append_text(&mut out, "Mine probability here: ");
                    text::append_text(&mut out, share.as_str());
                } else {
                    text::append_text(&mut out, "");
                }
            },
        }
        assert(out@ =~= self.verdict());
        out
    }
}

// ---------------------------------------------------------------------------
// Laws of a console
// ---------------------------------------------------------------------------

/// Where the exact search has an answer, that is what is shown, and it is called exact; where
/// it has none, what sampling found, and it is not.
pub proof fn law_exact_answers_are_shown(
    shown: Shown,
    search: ConstraintSearch,
    game: Minesweeper,
    cs: Run,
    mc: Option<Run>,
    after: ConstraintSearch,
)
    requires
        shown.says(cs, mc),
        session::may_search(search, game, cs, after),
    ensures
        cs.valid > 0 ==> shown.exact && shown.probs == cs.probs && mc is None,
        cs.valid > 0 && consistent::possible(game) ==> ConstraintSearch::exact(game, shown.probs),
        cs.valid == 0 ==> !shown.exact && mc is Some && shown.probs == mc->0.probs,
{
    let update = choose|update: SimUpdate<Estimate>| #[trigger]
        search.reports(game, update, after) && cs.says(update);
    assert(cs.says(update));
}

/// A cell is written three characters wide, with what the player sees of it in the middle: a
/// point where it is hidden, and else a flag, a mine, the number or, for none, a blank.
pub proof fn law_symbols_show_what_is_seen(cell: Cell)
    requires
        cell.content matches CellContent::Empty(n) ==> n <= 8,
    ensures
        symbol(cell).len() == 3,
        symbol(cell)[0] == ' ' && symbol(cell)[2] == ' ',
        cell.state == CellState::Hidden <==> symbol(cell)[1] == '.',
        cell.state == CellState::Flagged <==> symbol(cell)[1] == 'F',
        cell.state == CellState::Visible && cell.content == CellContent::Mine <==> symbol(cell)[1]
            == '*',
        cell.state == CellState::Visible && cell.content == CellContent::Empty(0) <==> symbol(
            cell,
        )[1] == ' ',
        cell.state == CellState::Visible ==> (cell.content matches CellContent::Empty(n) ==> n > 0
            ==> symbol(cell)[1] as int - '0' as int == n),
{
    reveal_strlit(" . ");
    reveal_strlit(" F ");
    reveal_strlit(" * ");
    reveal_strlit("   ");
    reveal_strlit(" ");
    match cell.content {
        CellContent::Empty(n) => {
            if n > 0 {
                assert(text::decimal(n as nat) =~= seq![text::digit_char(n as int)]);
            }
        },
        CellContent::Mine => {},
    }
}

/// While the game is played, the line below the board tells the share of the unopened cell
/// under the cursor, to the nearest tenth of a percent.
pub proof fn law_the_verdict_tells_the_share(console: Console)
    requires
        console.wf(),
        console.game.state == GameState::Playing,
        console.game.at(console.cursor_x as int, console.cursor_y as int).state
            != CellState::Visible,
        console.shown.probs.at(console.cursor_x as int, console.cursor_y as int)
            <= console.shown.probs.total@,
    ensures
        exists|t: nat|
            {
                let part = console.shown.probs.at(console.cursor_x as int, console.cursor_y as int);
                let whole = console.shown.probs.total@;
                &&& console.verdict() == "Mine probability here: "@ + #[trigger] readout::tenths(t)
                    + "%"@
                &&& 2000 * part - whole <= 2 * (t * whole) <= 2000 * part + whole
            },
{
    let part = console.shown.probs.at(console.cursor_x as int, console.cursor_y as int);
    let whole = console.shown.probs.total@;
    readout::law_shares_are_shown_to_the_nearest(part, whole);
    let t = readout::per_mille(part, whole);
    assert(console.verdict() == "Mine probability here: "@ + readout::tenths(t) + "%"@);
}

/// An arrow key moves the cursor one cell its way and stops it at the edge. Back and forth
/// within the board comes to where it was.
pub proof fn law_arrows_move_the_cursor(before: Console, key: Key, after: Console)
    requires
        before.wf(),
        before.moved(key, after),
    ensures
        after.cursor_x < before.game.width && after.cursor_y < before.game.height,
        key == Key::Left ==> after.cursor_y == before.cursor_y && (if before.cursor_x == 0 {
            after.cursor_x == 0
        } else {
            after.cursor_x == before.cursor_x - 1
        }),
        key == Key::Right ==> after.cursor_y == before.cursor_y && (if before.cursor_x
            == before.game.width - 1 {
            after.cursor_x == before.cursor_x
        } else {
            after.cursor_x == before.cursor_x + 1
        }),
        key == Key::Up ==> after.cursor_x == before.cursor_x && (if before.cursor_y == 0 {
            after.cursor_y == 0
        } else {
            after.cursor_y == before.cursor_y - 1
        }),
        key == Key::Down ==> after.cursor_x == before.cursor_x && (if before.cursor_y
            == before.game.height - 1 {
            after.cursor_y == before.cursor_y
        } else {
            after.cursor_y == before.cursor_y + 1
        }),
        after.game == before.game,
{
}

/// Where auto-play has come to its end by an exact estimate, no hidden cell is certain to be
/// safe: some layout that the player cannot rule out puts a mine there.
pub proof fn law_auto_play_leaves_nothing_safe(
    before: Minesweeper,
    shown: Shown,
    after: Minesweeper,
    last: Shown,
    x: usize,
    y: usize,
)
    requires
        autoplayed(before, shown, after, last),
        before.state == GameState::Playing,
        before.mines_generated,
        after.state == GameState::Playing,
        moves::fair(after),
        setup::unopened(after).len() <= usize::MAX,
        last.exact,
        autoplay::trusted(after, last.probs, true),
        after.has(x as int, y as int),
        after.at(x as int, y as int).state == CellState::Hidden,
    ensures
        !autoplay::surely_safe(after, (x as int, y as int)),
{
    consistent::law_the_real_mines_are_consistent(after);
    assert(consistent::consistent(after).contains(consistent::hidden_mines(after)));
    assert(consistent::possible(after));
    autoplay::law_only_none_and_all_are_certain(after, last.probs, x, y);
    consistent::law_certainty_is_exact(after, (x as int, y as int));
    assert(last.probs.at(x as int, y as int) == consistent::consistent_with_mine(
        after,
        (x as int, y as int),
    ).len());
    let cells = autoplay::unmined(after, last.probs);
    if cells.contains((x, y)) {
        let i = choose|i: int| 0 <= i < cells.len() && cells[i] == (x, y);
        assert(false);
    }
}

} // verus!
