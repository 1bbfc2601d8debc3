//! The window on the board that the neural estimators are fed.
//!
//! One cell's patch is what either network sees of the world: the nine by nine squares
//! around it, what is known about each, and one number about the whole board. The layout
//! is shared with whatever produced the weights: get a channel wrong and the network is
//! served inputs it never saw, which gives confident nonsense rather than an error.
//!
//! | Channel | Value                    | Meaning                             |
//! |---------|--------------------------|-------------------------------------|
//! | 0       | number / 8 if visible    | the number a visible cell shows     |
//! | 1       | 0 or 1                   | visible                             |
//! | 2       | 0 or 1                   | hidden                              |
//! | 3       | 0 or 1                   | flagged                             |
//! | 4       | 0 or 1                   | off the board                       |
//! | 5       | 1 in the middle, else 0  | the cell that is asked about        |
//! | 6       | mines left / hidden      | the same everywhere                 |
//! | 7       | 0 or 1                   | unopened and touching a number      |

use vstd::prelude::*;
use crate::board;
use crate::board::{Cell, CellContent, CellState, Minesweeper};
use crate::probability::setup;

verus! {

/// How far a patch reaches from its middle.
pub const HALF: usize = 4;

/// Cells along one side of a patch.
pub const PATCH: usize = 9;

/// Values for each cell of a patch.
pub const N_CHANNELS: usize = 8;

/// Values in one patch.
pub const PATCH_LEN: usize = 648;

/// One value of a patch, as a fraction.
#[derive(Debug, Clone, Copy, PartialEq, Eq, Structural)]
pub struct Fraction {
    pub part: usize,
    pub whole: usize,
}

/// A yes or a no as a fraction.
pub open spec fn mark(yes: bool) -> Fraction {
    Fraction {
        part: if yes {
            1
        } else {
            0
        },
        whole: 1,
    }
}

/// The code of what the player sees of a cell: hidden, visible or flagged.
pub open spec fn state_code(state: CellState) -> u8 {
    match state {
        CellState::Hidden => 0,
        CellState::Visible => 1,
        CellState::Flagged => 2,
    }
}

/// The code of what a cell shows: its number, 9 for a mine, 255 where it is unopened.
pub open spec fn content_code(cell: Cell) -> u8 {
    if cell.state == CellState::Visible {
        match cell.content {
            CellContent::Empty(n) => n,
            CellContent::Mine => 9,
        }
    } else {
        255
    }
}

/// Whether a cell shows a number that speaks of mines.
pub open spec fn speaks(cell: Cell) -> bool {
    0 < content_code(cell) < 9
}

/// Whether a cell is unopened and touches a number.
pub open spec fn is_border(game: Minesweeper, x: int, y: int) -> bool {
    &&& game.at(x, y).state != CellState::Visible
    &&& exists|i: int|
        0 <= i < game.around(x, y).len() && speaks(
            #[trigger] game.at(game.around(x, y)[i].0 as int, game.around(x, y)[i].1 as int),
        )
}

/// The cells that are neither opened nor flagged.
pub open spec fn hidden_test(game: Minesweeper) -> spec_fn(int, int) -> bool {
    |x: int, y: int| game.at(x, y).state == CellState::Hidden
}

/// The hidden cells of a board, row by row.
pub open spec fn hidden_cells(game: Minesweeper) -> Seq<(usize, usize)> {
    board::scan(hidden_test(game), game.width as int, game.height as int)
}

/// The mines left over the cells still hidden.
pub open spec fn mines_ratio(game: Minesweeper) -> Fraction {
    Fraction {
        part: setup::mines_left(game) as usize,
        whole: if hidden_cells(game).len() == 0 {
            1
        } else {
            hidden_cells(game).len() as usize
        },
    }
}

/// The value that a board puts into a channel for the cell at `(x, y)`, which may lie off
/// the board, in a patch whose middle is `(cx, cy)`.
pub open spec fn value(
    game: Minesweeper,
    channel: int,
    x: int,
    y: int,
    cx: int,
    cy: int,
) -> Fraction {
    if channel == 5 {
        mark(x == cx && y == cy)
    } else if channel == 6 {
        mines_ratio(game)
    } else if !game.has(x, y) {
        mark(channel == 4)
    } else if channel == 0 {
        if game.at(x, y).state == CellState::Visible && content_code(game.at(x, y)) < 9 {
            Fraction { part: content_code(game.at(x, y)) as usize, whole: 8 }
        } else {
            mark(false)
        }
    } else if channel == 1 {
        mark(game.at(x, y).state == CellState::Visible)
    } else if channel == 2 {
        mark(game.at(x, y).state == CellState::Hidden)
    } else if channel == 3 {
        mark(game.at(x, y).state == CellState::Flagged)
    } else if channel == 4 {
        mark(false)
    } else {
        mark(is_border(game, x, y))
    }
}

/// The patch around a cell: channel by channel, and in each row by row.
pub open spec fn patch_of(game: Minesweeper, cx: int, cy: int) -> Seq<Fraction> {
    Seq::new(
        648,
        |k: int| value(game, k / 81, cx + k % 9 - 4, cy + (k % 81) / 9 - 4, cx, cy),
    )
}

/// The patches around several cells, one after the other.
pub open spec fn patches_of(game: Minesweeper, cells: Seq<(usize, usize)>) -> Seq<Fraction>
    decreases cells.len(),
{
    if cells.len() == 0 {
        Seq::empty()
    } else {
        patches_of(game, cells.drop_last()) + patch_of(
            game,
            cells.last().0 as int,
            cells.last().1 as int,
        )
    }
}

/// Everything about a board that a patch needs, computed once for all patches.
pub struct PatchSource {
    pub width: usize,
    pub height: usize,
    /// 0 hidden, 1 visible, 2 flagged; row by row.
    pub state: Vec<u8>,
    /// The number that is shown, 9 for a visible mine, 255 otherwise.
    pub content: Vec<u8>,
    /// Unopened cells touching a visible number.
    pub border: Vec<bool>,
    /// Mines left over the cells still hidden.
    pub mines_ratio: Fraction,
}

/// Where a cell stands in a list of all cells, row by row.
proof fn lemma_place(x: int, y: int, width: int, height: int)
    requires
        0 <= x < width,
        0 <= y < height,
    ensures
        0 <= y * width + x < width * height,
{
    assert(0 <= y * width) by (nonlinear_arith)
        requires
            0 <= x < width,
            0 <= y < height,
    ;
    assert(y * width + width <= width * height) by (nonlinear_arith)
        requires
            0 <= x < width,
            0 <= y < height,
    ;
}

/// The code of what the player sees of a cell.
pub fn encode_state(state: CellState) -> (code: u8)
    ensures
        code == state_code(state),
{
    match state {
        CellState::Hidden => 0,
        CellState::Visible => 1,
        CellState::Flagged => 2,
    }
}

/// The code of what a cell shows.
pub fn encode_content(cell: &Cell) -> (code: u8)
    ensures
        code == content_code(*cell),
{
    match cell.state {
        CellState::Visible => match cell.content {
            CellContent::Empty(n) => n,
            CellContent::Mine => 9,
        },
        _ => 255,
    }
}

/// Whether a cell is unopened and touches a number.
pub fn on_border(game: &Minesweeper, x: usize, y: usize) -> (border: bool)
    requires
        game.wf(),
        game.has(x as int, y as int),
    ensures
        border == is_border(*game, x as int, y as int),
{
    if game.grid[y][x].state == CellState::Visible {
        return false;
    }
    let near: Vec<(usize, usize)> = board::neighbours(x, y, game.width, game.height);
    proof {
        board::lemma_neighbours(x as int, y as int, game.width, game.height);
    }
    for i in 0..near.len()
        invariant
            game.wf(),
            game.has(x as int, y as int),
            game.at(x as int, y as int).state != CellState::Visible,
            near@ == game.around(x as int, y as int),
            board::all_adjacent(
                near@,
                x as int,
                y as int,
                game.width as int,
                game.height as int,
            ),
            forall|k: int|
                0 <= k < i ==> !speaks(
                    #[trigger] game.at(
                        game.around(x as int, y as int)[k].0 as int,
                        game.around(x as int, y as int)[k].1 as int,
                    ),
                ),
    {
        let (nx, ny): (usize, usize) = near[i];
        assert(near@[i as int].0 < game.width && near@[i as int].1 < game.height);
        let code: u8 = encode_content(&game.grid[ny][nx]);
        if 0 < code && code < 9 {
            assert(speaks(
                game.at(
                    game.around(x as int, y as int)[i as int].0 as int,
                    game.around(x as int, y as int)[i as int].1 as int,
                ),
            ));
            return true;
        }
    }
    false
}

/// Counts the hidden cells.
pub fn count_hidden(game: &Minesweeper) -> (count: usize)
    requires
        game.wf(),
    ensures
        count == hidden_cells(*game).len(),
{
    list_hidden(game).len()
}

/// Lists the hidden cells, row by row.
pub fn list_hidden(game: &Minesweeper) -> (list: Vec<(usize, usize)>)
    requires
        game.wf(),
    ensures
        list@ == hidden_cells(*game),
{
    let mut list: Vec<(usize, usize)> = Vec::new();
    let ghost test = hidden_test(*game);
    for y in 0..game.height
        invariant
            game.wf(),
            test == hidden_test(*game),
            list@ == board::scan(test, game.width as int, y as int),
    {
        let ghost above = list@;
        for x in 0..game.width
            invariant
                game.wf(),
                y < game.height,
                test == hidden_test(*game),
                list@ == above + board::scan_row(test, y as int, x as int),
        {
            if game.grid[y][x].state == CellState::Hidden {
                list.push((x, y));
            }
            assert(list@ =~= above + board::scan_row(test, y as int, x + 1));
        }
    }
    list
}

/// The codes of one cell are right.
pub open spec fn knows(
    state: Seq<u8>,
    content: Seq<u8>,
    border: Seq<bool>,
    game: Minesweeper,
    x: int,
    y: int,
) -> bool {
    let at = y * game.width + x;
    &&& state[at] == state_code(game.at(x, y).state)
    &&& content[at] == content_code(game.at(x, y))
    &&& border[at] == is_border(game, x, y)
}

impl PatchSource {
    /// The lists have one entry for each cell.
    pub open spec fn wf(self) -> bool {
        &&& self.state@.len() == self.width * self.height
        &&& self.content@.len() == self.width * self.height
        &&& self.border@.len() == self.width * self.height
    }

    /// Whether this is the description of a board.
    pub open spec fn describes(self, game: Minesweeper) -> bool {
        &&& self.wf()
        &&& self.width == game.width
        &&& self.height == game.height
        &&& forall|x: int, y: int| game.has(x, y) ==> #[trigger] knows(
                self.state@,
                self.content@,
                self.border@,
                game,
                x,
                y,
            )
        &&& self.mines_ratio == mines_ratio(game)
    }

    /// Describes a board.
    pub fn new(game: &Minesweeper) -> (source: Self)
        requires
            game.wf(),
            game.width * game.height <= usize::MAX,
        ensures
            source.describes(*game),
    {
        let (width, height): (usize, usize) = (game.width, game.height);
        let mut state: Vec<u8> = Vec::new();
        let mut content: Vec<u8> = Vec::new();
        let mut border: Vec<bool> = Vec::new();
        assert(0 * width == 0) by (nonlinear_arith);
        for y in 0..height
            invariant
                game.wf(),
                width == game.width,
                height == game.height,
                state@.len() == y * width,
                content@.len() == y * width,
                border@.len() == y * width,
                forall|i: int, j: int|
                    0 <= i < width && 0 <= j < y ==> #[trigger] knows(
                        state@,
                        content@,
                        border@,
                        *game,
                        i,
                        j,
                    ),
        {
            for x in 0..width
                invariant
                    game.wf(),
                    y < height,
                    width == game.width,
                    height == game.height,
                    state@.len() == y * width + x,
                    content@.len() == y * width + x,
                    border@.len() == y * width + x,
                    forall|i: int, j: int|
                        0 <= i < width && 0 <= j && (j < y || j == y && i < x) ==> #[trigger] knows(
                            state@,
                            content@,
                            border@,
                            *game,
                            i,
                            j,
                        ),
            {
                let ghost before = (state@, content@, border@);
                let cell: &Cell = &game.grid[y][x];
                state.push(encode_state(cell.state));
                content.push(encode_content(cell));
                border.push(on_border(game, x, y));
                proof {
                    assert forall|i: int, j: int|
                        0 <= i < width && 0 <= j && (j < y || j == y && i < x
                            + 1) implies #[trigger] knows(
                        state@,
                        content@,
                        border@,
                        *game,
                        i,
                        j,
                    ) by {
                        if j < y || i < x {
                            assert(knows(before.0, before.1, before.2, *game, i, j));
                        }
                        if j < y {
                            lemma_place(i, j, width as int, y as int);
                            assert(j * width + i < width * y);
                            assert(width * y == y * width) by (nonlinear_arith);
                        } else if i < x {
                            assert(0 <= j * width) by (nonlinear_arith)
                                requires
                                    0 <= j,
                                    0 <= width,
                            ;
                        } else {
                            assert(j * width + i == y * width + x);
                        }
                    }
                }
            }
            assert((y + 1) * width == y * width + width) by (nonlinear_arith);
        }
        assert(height * width == width * height) by (nonlinear_arith);
        let hidden: usize = count_hidden(game);
        let ratio = Fraction {
            part: setup::count_mines_left(game),
            whole: if hidden == 0 {
                1
            } else {
                hidden
            },
        };
        let source = Self { width, height, state, content, border, mines_ratio: ratio };
        source
    }

    /// What a channel says of the cell at `(x, y)`, which may lie off the board, in the
    /// patch around `(cx, cy)`.
    pub open spec fn says(self, channel: int, x: int, y: int, cx: int, cy: int) -> Fraction {
        let at = y * self.width + x;
        if channel == 5 {
            mark(x == cx && y == cy)
        } else if channel == 6 {
            self.mines_ratio
        } else if !board::on_board(x, y, self.width as int, self.height as int) {
            mark(channel == 4)
        } else if channel == 0 {
            if self.state@[at] == 1 && self.content@[at] < 9 {
                Fraction { part: self.content@[at] as usize, whole: 8 }
            } else {
                mark(false)
            }
        } else if channel == 1 {
            mark(self.state@[at] == 1)
        } else if channel == 2 {
            mark(self.state@[at] == 0)
        } else if channel == 3 {
            mark(self.state@[at] == 2)
        } else if channel == 4 {
            mark(false)
        } else {
            mark(self.border@[at])
        }
    }

    /// The patch around a cell: channel by channel, and in each row by row.
    pub open spec fn patch(self, cx: int, cy: int) -> Seq<Fraction> {
        Seq::new(648, |k: int| self.says(k / 81, cx + k % 9 - 4, cy + (k % 81) / 9 - 4, cx, cy))
    }

    /// Looks up what a channel says of the cell `row` rows and `column` columns into the
    /// patch around `(cx, cy)`.
    fn look(&self, cx: usize, cy: usize, channel: usize, row: usize, column: usize) -> (value:
        Fraction)
        requires
            self.wf(),
            channel < 8,
            row < 9,
            column < 9,
        ensures
            value == self.says(
                channel as int,
                cx + column - 4,
                cy + row - 4,
                cx as int,
                cy as int,
            ),
    {
        let no = Fraction { part: 0, whole: 1 };
        let yes = Fraction { part: 1, whole: 1 };
        if channel == 5 {
            return if row == HALF && column == HALF {
                yes
            } else {
                no
            };
        }
        if channel == 6 {
            return self.mines_ratio;
        }
        let found: Option<usize> = match (
            shifted(cx, column, self.width),
            shifted(cy, row, self.height),
        ) {
            (Some(x), Some(y)) => {
                let cells: usize = self.state.len();
                proof {
                    lemma_place(x as int, y as int, self.width as int, self.height as int);
                    assert(y * self.width + x < cells);
                    assert(0 <= y * self.width) by (nonlinear_arith);
                }
                Some(y * self.width + x)
            },
            _ => None,
        };
        match found {
            None => if channel == 4 {
                yes
            } else {
                no
            },
            Some(at) => {
                let state: u8 = self.state[at];
                let content: u8 = self.content[at];
                let said: bool = if channel == 0 {
                    if state == 1 && content < 9 {
                        return Fraction { part: content as usize, whole: 8 };
                    }
                    false
                } else if channel == 1 {
                    state == 1
                } else if channel == 2 {
                    state == 0
                } else if channel == 3 {
                    state == 2
                } else if channel == 4 {
                    false
                } else {
                    self.border[at]
                };
                if said {
                    yes
                } else {
                    no
                }
            },
        }
    }

    /// Writes out the patch around `(cx, cy)`: channel by channel, and in each row by
    /// row.
    pub fn fill(&self, cx: usize, cy: usize) -> (patch: Vec<Fraction>)
        requires
            self.wf(),
        ensures
            patch@ == self.patch(cx as int, cy as int),
    {
        let mut patch: Vec<Fraction> = Vec::new();
        for k in 0..PATCH_LEN
            invariant
                self.wf(),
                patch@ == self.patch(cx as int, cy as int).take(k as int),
        {
            let plane: usize = PATCH * PATCH;
            let row: usize = (k % plane) / PATCH;
            let column: usize = k % PATCH;
            patch.push(self.look(cx, cy, k / plane, row, column));
            assert(patch@ =~= self.patch(cx as int, cy as int).take(k + 1));
        }
        patch
    }

    /// Writes out the patches around several cells, one after the other.
    pub fn batch(&self, cells: &Vec<(usize, usize)>) -> (patches: Vec<Fraction>)
        requires
            self.wf(),
        ensures
            patches@ == self.patches(cells@),
    {
        let mut patches: Vec<Fraction> = Vec::new();
        for i in 0..cells.len()
            invariant
                self.wf(),
                patches@ == self.patches(cells@.take(i as int)),
        {
            let mut patch: Vec<Fraction> = self.fill(cells[i].0, cells[i].1);
            patches.append(&mut patch);
            assert(cells@.take(i + 1).drop_last() =~= cells@.take(i as int));
        }
        assert(cells@.take(cells@.len() as int) =~= cells@);
        patches
    }

    /// The patches around several cells, one after the other.
    pub open spec fn patches(self, cells: Seq<(usize, usize)>) -> Seq<Fraction>
        decreases cells.len(),
    {
        if cells.len() == 0 {
            Seq::empty()
        } else {
            self.patches(cells.drop_last()) + self.patch(
                cells.last().0 as int,
                cells.last().1 as int,
            )
        }
    }
}

/// A patch shows the board: each of its values is the one that the board puts there.
pub proof fn law_a_patch_shows_the_board(
    game: Minesweeper,
    source: PatchSource,
    cx: int,
    cy: int,
)
    requires
        source.describes(game),
    ensures
        source.patch(cx, cy) == patch_of(game, cx, cy),
{
    assert forall|k: int| 0 <= k < 648 implies #[trigger] source.patch(cx, cy)[k] == patch_of(
        game,
        cx,
        cy,
    )[k] by {
        let x = cx + k % 9 - 4;
        let y = cy + (k % 81) / 9 - 4;
        if game.has(x, y) {
            assert(knows(source.state@, source.content@, source.border@, game, x, y));
        }
    }
    assert(source.patch(cx, cy) =~= patch_of(game, cx, cy));
}

/// So do several of them.
pub proof fn lemma_patches(game: Minesweeper, source: PatchSource, cells: Seq<(usize, usize)>)
    requires
        source.describes(game),
    ensures
        source.patches(cells) == patches_of(game, cells),
    decreases cells.len(),
{
    if cells.len() > 0 {
        lemma_patches(game, source, cells.drop_last());
        law_a_patch_shows_the_board(
            game,
            source,
            cells.last().0 as int,
            cells.last().1 as int,
        );
    }
}

/// The channels of a cell's state tell visible, hidden, flagged and off the board apart:
/// exactly one of them is set, wherever in the patch the cell lies.
pub proof fn law_one_state_per_cell(game: Minesweeper, x: int, y: int, cx: int, cy: int)
    ensures
        value(game, 1, x, y, cx, cy).part + value(game, 2, x, y, cx, cy).part + value(
            game,
            3,
            x,
            y,
            cx,
            cy,
        ).part + value(game, 4, x, y, cx, cy).part == 1,
{
}

/// Whether a fraction is one, or zero.
pub open spec fn is_one(f: Fraction) -> bool {
    f.part == f.whole && f.whole > 0
}

pub open spec fn is_zero(f: Fraction) -> bool {
    f.part == 0 && f.whole > 0
}

/// Whether a channel answers a question: one for yes, zero for no.
pub open spec fn answers(f: Fraction, yes: bool) -> bool {
    if yes {
        is_one(f)
    } else {
        is_zero(f)
    }
}

/// Where a patch around `(cx, cy)` holds what channel `channel` says of `(x, y)`.
pub open spec fn slot(channel: int, x: int, y: int, cx: int, cy: int) -> int {
    channel * 81 + (y - cy + 4) * 9 + (x - cx + 4)
}

/// Whether a position lies in the patch around another one.
pub open spec fn in_window(x: int, y: int, cx: int, cy: int) -> bool {
    -4 <= x - cx <= 4 && -4 <= y - cy <= 4
}

/// A slot of a patch holds what the board says there.
proof fn lemma_slot(
    game: Minesweeper,
    source: PatchSource,
    channel: int,
    x: int,
    y: int,
    cx: int,
    cy: int,
)
    requires
        source.describes(game),
        0 <= channel < 8,
        in_window(x, y, cx, cy),
    ensures
        0 <= slot(channel, x, y, cx, cy) < source.patch(cx, cy).len(),
        source.patch(cx, cy)[slot(channel, x, y, cx, cy)] == value(game, channel, x, y, cx, cy),
{
    law_a_patch_shows_the_board(game, source, cx, cy);
    let k = slot(channel, x, y, cx, cy);
    assert(k / 81 == channel);
    assert(k % 9 == x - cx + 4);
    assert((k % 81) / 9 == y - cy + 4);
}

/// A patch keeps what the player sees of every cell in its window. The first channel is
/// the number that is shown, in eighths; the others say whether the cell is visible,
/// hidden, flagged, off the board, the one asked about, and unopened beside a number.
pub proof fn law_a_patch_keeps_what_is_seen(
    game: Minesweeper,
    source: PatchSource,
    x: int,
    y: int,
    cx: int,
    cy: int,
)
    requires
        source.describes(game),
        in_window(x, y, cx, cy),
    ensures
        source.patch(cx, cy).len() == 648,
        game.has(x, y) ==> reads(source.patch(cx, cy)[slot(0, x, y, cx, cy)], game.at(x, y)),
        !game.has(x, y) ==> is_zero(source.patch(cx, cy)[slot(0, x, y, cx, cy)]),
        answers(
            source.patch(cx, cy)[slot(1, x, y, cx, cy)],
            game.has(x, y) && game.at(x, y).state == CellState::Visible,
        ),
        answers(
            source.patch(cx, cy)[slot(2, x, y, cx, cy)],
            game.has(x, y) && game.at(x, y).state == CellState::Hidden,
        ),
        answers(
            source.patch(cx, cy)[slot(3, x, y, cx, cy)],
            game.has(x, y) && game.at(x, y).state == CellState::Flagged,
        ),
        answers(source.patch(cx, cy)[slot(4, x, y, cx, cy)], !game.has(x, y)),
        answers(source.patch(cx, cy)[slot(5, x, y, cx, cy)], x == cx && y == cy),
        answers(
            source.patch(cx, cy)[slot(7, x, y, cx, cy)],
            game.has(x, y) && game.at(x, y).state != CellState::Visible && exists|
                nx: int,
                ny: int,
            | #[trigger]
                shows_mines_beside(game, x, y, nx, ny),
        ),
{
    lemma_slot(game, source, 0, x, y, cx, cy);
    lemma_slot(game, source, 1, x, y, cx, cy);
    lemma_slot(game, source, 2, x, y, cx, cy);
    lemma_slot(game, source, 3, x, y, cx, cy);
    lemma_slot(game, source, 4, x, y, cx, cy);
    lemma_slot(game, source, 5, x, y, cx, cy);
    lemma_slot(game, source, 7, x, y, cx, cy);
    if game.has(x, y) {
        board::lemma_neighbours(x, y, game.width, game.height);
        let near = game.around(x, y);
        let touched = exists|nx: int, ny: int| #[trigger] shows_mines_beside(game, x, y, nx, ny);
        if is_border(game, x, y) {
            let i = choose|i: int|
                0 <= i < near.len() && speaks(
                    #[trigger] game.at(near[i].0 as int, near[i].1 as int),
                );
            assert(near[i].0 < game.width && board::adjacent((x, y), board::spot(near[i])));
            assert(shows_mines_beside(game, x, y, near[i].0 as int, near[i].1 as int));
        }
        if touched && game.at(x, y).state != CellState::Visible {
            let (nx, ny) = choose|nx: int, ny: int| #[trigger]
                shows_mines_beside(game, x, y, nx, ny);
            let q = (nx as usize, ny as usize);
            assert(board::spot(q) == (nx, ny));
            assert(near.contains(q));
            let i = choose|i: int| 0 <= i < near.len() && near[i] == q;
            assert(speaks(game.at(near[i].0 as int, near[i].1 as int)));
        }
        assert(is_border(game, x, y) == (game.at(x, y).state != CellState::Visible && touched));
    }
}

/// Whether a fraction is the number that a cell shows, in eighths: eight of it make the
/// number. It is zero where no number is shown.
pub open spec fn reads(f: Fraction, cell: Cell) -> bool {
    if cell.state == CellState::Visible {
        match cell.content {
            CellContent::Empty(n) => n <= 8 ==> f.whole > 0 && 8 * f.part == n * f.whole,
            CellContent::Mine => is_zero(f),
        }
    } else {
        is_zero(f)
    }
}

/// Whether a cell of the board beside another one shows that mines are near.
pub open spec fn shows_mines_beside(
    game: Minesweeper,
    x: int,
    y: int,
    nx: int,
    ny: int,
) -> bool {
    game.has(nx, ny) && board::adjacent((x, y), (nx, ny)) && shows_mines(game.at(nx, ny))
}

/// Whether a cell shows that mines are near, and how many.
pub open spec fn shows_mines(cell: Cell) -> bool {
    cell.state == CellState::Visible && (cell.content matches CellContent::Empty(n) && 0 < n < 9)
}

/// The same everywhere in a patch: the mines left, over the hidden cells.
pub proof fn law_a_patch_keeps_the_density(
    game: Minesweeper,
    source: PatchSource,
    x: int,
    y: int,
    cx: int,
    cy: int,
)
    requires
        source.describes(game),
        in_window(x, y, cx, cy),
        hidden_cells(game).len() <= usize::MAX,
    ensures
        ({
            let ratio = source.patch(cx, cy)[slot(6, x, y, cx, cy)];
            &&& ratio.part == setup::mines_left(game)
            &&& hidden_cells(game).len() > 0 ==> ratio.whole == hidden_cells(game).len()
            &&& hidden_cells(game).len() == 0 ==> ratio.whole == 1
        }),
{
    lemma_slot(game, source, 6, x, y, cx, cy);
}

/// Boards whose patches agree look the same to the player all over the window: the same
/// cells are on the board, in the same state, and the same numbers are shown.
pub proof fn law_equal_patches_show_the_same(
    a: Minesweeper,
    here: PatchSource,
    b: Minesweeper,
    there: PatchSource,
    x: int,
    y: int,
    cx: int,
    cy: int,
)
    requires
        here.describes(a),
        there.describes(b),
        here.patch(cx, cy) == there.patch(cx, cy),
        in_window(x, y, cx, cy),
    ensures
        a.has(x, y) == b.has(x, y),
        a.has(x, y) ==> a.at(x, y).state == b.at(x, y).state,
        a.has(x, y) && a.at(x, y).state == CellState::Visible ==> (a.at(
            x,
            y,
        ).content matches CellContent::Empty(n) ==> b.at(
            x,
            y,
        ).content matches CellContent::Empty(m) ==> n <= 8 ==> m <= 8 ==> n == m),
{
    law_a_patch_keeps_what_is_seen(a, here, x, y, cx, cy);
    law_a_patch_keeps_what_is_seen(b, there, x, y, cx, cy);
    lemma_slot(a, here, 0, x, y, cx, cy);
    lemma_slot(b, there, 0, x, y, cx, cy);
}

/// The position `step` further than four before `from`, if it is below `end`.
fn shifted(from: usize, step: usize, end: usize) -> (to: Option<usize>)
    requires
        step < 9,
    ensures
        to is Some <==> 0 <= from + step - 4 < end,
        to matches Some(at) ==> at == from + step - 4,
{
    if step < HALF {
        let back: usize = HALF - step;
        if from >= back && from - back < end {
            Some(from - back)
        } else {
            None
        }
    } else {
        let on: usize = step - HALF;
        if from < end && on < end - from {
            Some(from + on)
        } else {
            None
        }
    }
}

} // verus!
