//! The board and the rules of the game.

use rand::Rng;
use vstd::prelude::*;
use vstd::set_lib::*;
use crate::chance;
use crate::chance::Dice;
use crate::text;

verus! {

/// What the player sees of a cell.
#[derive(Debug, Clone, Copy, PartialEq, Eq, Structural)]
pub enum CellState {
    Hidden,
    Visible,
    Flagged,
}

/// What is under a cell.
#[derive(Debug, Clone, Copy, PartialEq, Eq, Structural)]
pub enum CellContent {
    /// No mine; the number of neighbouring mines.
    Empty(u8),
    Mine,
}

/// One square of the board.
#[derive(Debug, Clone, PartialEq, Eq, Structural)]
pub struct Cell {
    pub state: CellState,
    pub content: CellContent,
}

impl Cell {
    /// A hidden cell with nothing around it.
    pub fn new() -> (cell: Self)
        ensures
            cell.state == CellState::Hidden,
            cell.content == CellContent::Empty(0),
    {
        Self { state: CellState::Hidden, content: CellContent::Empty(0) }
    }
}

/// Where a game stands.
#[derive(Debug, Clone, Copy, PartialEq, Eq, Structural)]
pub enum GameState {
    Playing,
    Won,
    Lost,
}

/// A game: the board and where it stands.
pub struct Minesweeper {
    pub width: usize,
    pub height: usize,
    pub mines_count: usize,
    /// Rows of cells: `grid[y][x]`.
    pub grid: Vec<Vec<Cell>>,
    pub state: GameState,
    /// Whether the mines have been placed; they are placed on the first reveal.
    pub mines_generated: bool,
}

// ---------------------------------------------------------------------------
// Neighbours
// ---------------------------------------------------------------------------

/// Column and row offset of the `i`-th of the eight neighbours, row by row.
pub open spec fn offset(i: int) -> (int, int) {
    if i == 0 {
        (-1, -1)
    } else if i == 1 {
        (0, -1)
    } else if i == 2 {
        (1, -1)
    } else if i == 3 {
        (-1, 0)
    } else if i == 4 {
        (1, 0)
    } else if i == 5 {
        (-1, 1)
    } else if i == 6 {
        (0, 1)
    } else {
        (1, 1)
    }
}

/// Whether a position lies on a board.
pub open spec fn on_board(x: int, y: int, width: int, height: int) -> bool {
    0 <= x < width && 0 <= y < height
}

/// Those of the first `i` neighbours of a cell that lie on the board.
pub open spec fn neighbours_upto(x: int, y: int, width: int, height: int, i: int) -> Seq<
    (usize, usize),
>
    decreases i,
{
    if i <= 0 {
        Seq::empty()
    } else {
        let front = neighbours_upto(x, y, width, height, i - 1);
        let (dx, dy) = offset(i - 1);
        if on_board(x + dx, y + dy, width, height) {
            front.push(((x + dx) as usize, (y + dy) as usize))
        } else {
            front
        }
    }
}

/// The neighbours of a cell, row by row.
pub open spec fn neighbours_of(x: int, y: int, width: int, height: int) -> Seq<(usize, usize)> {
    neighbours_upto(x, y, width, height, 8)
}

/// Whether two positions touch, by an edge or a corner.
pub open spec fn adjacent(a: (int, int), b: (int, int)) -> bool {
    &&& a != b
    &&& -1 <= a.0 - b.0 <= 1
    &&& -1 <= a.1 - b.1 <= 1
}

/// A position as integers.
pub open spec fn spot(p: (usize, usize)) -> (int, int) {
    (p.0 as int, p.1 as int)
}

/// `a` comes before `b`, reading row by row.
pub open spec fn earlier(a: (usize, usize), b: (usize, usize)) -> bool {
    a.1 < b.1 || a.1 == b.1 && a.0 < b.0
}

/// Whether positions are listed row by row, each once.
pub open spec fn row_major(list: Seq<(usize, usize)>) -> bool {
    forall|i: int, j: int|
        0 <= i < j < list.len() ==> earlier(#[trigger] list[i], #[trigger] list[j])
}

/// Whether `list` holds neighbours of a cell only.
pub open spec fn all_adjacent(
    list: Seq<(usize, usize)>,
    x: int,
    y: int,
    width: int,
    height: int,
) -> bool {
    forall|i: int|
        0 <= i < list.len() ==> (#[trigger] list[i]).0 < width && list[i].1 < height && adjacent(
            (x, y),
            spot(list[i]),
        )
}

/// The neighbours are exactly the adjacent cells of the board, each once, row by row.
pub proof fn lemma_neighbours(x: int, y: int, width: usize, height: usize)
    requires
        on_board(x, y, width as int, height as int),
    ensures
        all_adjacent(
            neighbours_of(x, y, width as int, height as int),
            x,
            y,
            width as int,
            height as int,
        ),
        row_major(neighbours_of(x, y, width as int, height as int)),
        forall|p: (usize, usize)|
            p.0 < width && p.1 < height && adjacent((x, y), spot(p))
                ==> #[trigger] neighbours_of(x, y, width as int, height as int).contains(p),
        neighbours_of(x, y, width as int, height as int).len() <= 8,
{
    let list = neighbours_of(x, y, width as int, height as int);
    lemma_neighbours_upto(x, y, width, height, 8);
    assert forall|p: (usize, usize)|
        p.0 < width && p.1 < height && adjacent(
            (x, y),
            spot(p),
        ) implies #[trigger] list.contains(p) by {
        let dx = p.0 - x;
        let dy = p.1 - y;
        let k = if dy == -1 {
            dx + 1
        } else if dy == 0 {
            if dx == -1 {
                3int
            } else {
                4int
            }
        } else {
            dx + 6
        };
        assert(offset(k) == (dx, dy));
        assert(on_board(x + offset(k).0, y + offset(k).1, width as int, height as int));
    }
}

proof fn lemma_neighbours_upto(x: int, y: int, width: usize, height: usize, n: int)
    requires
        on_board(x, y, width as int, height as int),
        0 <= n <= 8,
    ensures
        ({
            let list = neighbours_upto(x, y, width as int, height as int, n);
            &&& list.len() <= n
            &&& all_adjacent(list, x, y, width as int, height as int)
            &&& forall|i: int|
                0 <= i < list.len() ==> exists|k: int|
                    0 <= k < n && spot(#[trigger] list[i]) == (x + (#[trigger] offset(k)).0, y
                        + offset(k).1)
            &&& row_major(list)
            &&& forall|k: int|
                0 <= k < n && on_board(
                    x + (#[trigger] offset(k)).0,
                    y + offset(k).1,
                    width as int,
                    height as int,
                ) ==> list.contains(((x + offset(k).0) as usize, (y + offset(k).1) as usize))
        }),
    decreases n,
{
    if n > 0 {
        lemma_neighbours_upto(x, y, width, height, n - 1);
        let front = neighbours_upto(x, y, width as int, height as int, n - 1);
        let list = neighbours_upto(x, y, width as int, height as int, n);
        let (dx, dy) = offset(n - 1);
        if on_board(x + dx, y + dy, width as int, height as int) {
            let p = ((x + dx) as usize, (y + dy) as usize);
            assert(list[front.len() as int] == p);
            assert forall|i: int| 0 <= i < list.len() implies exists|k: int|
                0 <= k < n && spot(#[trigger] list[i]) == (x + (#[trigger] offset(k)).0, y + offset(
                    k,
                ).1) by {
                if i < front.len() {
                    assert(list[i] == front[i]);
                    let k = choose|k: int|
                        0 <= k < n - 1 && spot(front[i]) == (x + (#[trigger] offset(k)).0, y
                            + offset(k).1);
                    assert(spot(list[i]) == (x + offset(k).0, y + offset(k).1));
                } else {
                    assert(spot(list[i]) == (x + offset(n - 1).0, y + offset(n - 1).1));
                }
            }
            assert forall|i: int, j: int| 0 <= i < j < list.len() implies earlier(
                #[trigger] list[i],
                #[trigger] list[j],
            ) by {
                assert(list[i] == front[i]);
                if j < front.len() {
                    assert(list[j] == front[j]);
                } else {
                    let k = choose|k: int|
                        0 <= k < n - 1 && spot(front[i]) == (x + (#[trigger] offset(k)).0, y
                            + offset(k).1);
                }
            }
            assert forall|k: int|
                0 <= k < n && on_board(
                    x + (#[trigger] offset(k)).0,
                    y + offset(k).1,
                    width as int,
                    height as int,
                ) implies list.contains(
                ((x + offset(k).0) as usize, (y + offset(k).1) as usize),
            ) by {
                if k < n - 1 {
                    let q = ((x + offset(k).0) as usize, (y + offset(k).1) as usize);
                    assert(front.contains(q));
                    let i = choose|i: int| 0 <= i < front.len() && front[i] == q;
                    assert(list[i] == q);
                }
            }
        } else {
            assert(list == front);
            assert forall|i: int| 0 <= i < list.len() implies exists|k: int|
                0 <= k < n && spot(#[trigger] list[i]) == (x + (#[trigger] offset(k)).0, y + offset(
                    k,
                ).1) by {
                let k = choose|k: int|
                    0 <= k < n - 1 && spot(front[i]) == (x + (#[trigger] offset(k)).0, y + offset(
                        k,
                    ).1);
                assert(spot(list[i]) == (x + offset(k).0, y + offset(k).1));
            }
        }
    }
}

/// Lists the neighbours of a cell, row by row.
pub fn neighbours(x: usize, y: usize, width: usize, height: usize) -> (list: Vec<(usize, usize)>)
    requires
        x < width,
        y < height,
    ensures
        list@ == neighbours_of(x as int, y as int, width as int, height as int),
{
    let mut list: Vec<(usize, usize)> = Vec::new();
    let mut i: usize = 0;
    while i < 8
        invariant
            i <= 8,
            x < width,
            y < height,
            list@ == neighbours_upto(x as int, y as int, width as int, height as int, i as int),
        decreases 8 - i,
    {
        let left: bool = i == 0 || i == 3 || i == 5;
        let right: bool = i == 2 || i == 4 || i == 7;
        let above: bool = i < 3;
        let below: bool = i >= 5;
        if !(left && x == 0 || right && x + 1 == width || above && y == 0 || below && y + 1
            == height) {
            let nx: usize = if left {
                x - 1
            } else if right {
                x + 1
            } else {
                x
            };
            let ny: usize = if above {
                y - 1
            } else if below {
                y + 1
            } else {
                y
            };
            list.push((nx, ny));
        }
        i = i + 1;
    }
    list
}

// ---------------------------------------------------------------------------
// Lists of cells, row by row
// ---------------------------------------------------------------------------

/// The first `x` cells of row `y` that satisfy a test.
pub open spec fn scan_row(test: spec_fn(int, int) -> bool, y: int, x: int) -> Seq<(usize, usize)>
    decreases x,
{
    if x <= 0 {
        Seq::empty()
    } else {
        let front = scan_row(test, y, x - 1);
        if test(x - 1, y) {
            front.push(((x - 1) as usize, y as usize))
        } else {
            front
        }
    }
}

/// The cells of the first `y` rows that satisfy a test, row by row.
pub open spec fn scan(test: spec_fn(int, int) -> bool, width: int, y: int) -> Seq<(usize, usize)>
    decreases y,
{
    if y <= 0 {
        Seq::empty()
    } else {
        scan(test, width, y - 1) + scan_row(test, y - 1, width)
    }
}

proof fn lemma_scan_row(test: spec_fn(int, int) -> bool, y: usize, x: usize)
    ensures
        row_major(scan_row(test, y as int, x as int)),
        forall|i: int|
            0 <= i < scan_row(test, y as int, x as int).len() ==> {
                &&& (#[trigger] scan_row(test, y as int, x as int)[i]).0 < x
                &&& scan_row(test, y as int, x as int)[i].1 == y
                &&& test(scan_row(test, y as int, x as int)[i].0 as int, y as int)
            },
        forall|p: (usize, usize)|
            p.0 < x && p.1 == y && test(p.0 as int, y as int) ==> #[trigger] scan_row(
                test,
                y as int,
                x as int,
            ).contains(p),
    decreases x,
{
    if x > 0 {
        let before = (x - 1) as usize;
        lemma_scan_row(test, y, before);
        let front = scan_row(test, y as int, before as int);
        let list = scan_row(test, y as int, x as int);
        assert forall|p: (usize, usize)|
            p.0 < x && p.1 == y && test(p.0 as int, y as int) implies #[trigger] list.contains(
            p,
        ) by {
            if p.0 < before {
                assert(front.contains(p));
                let i = choose|i: int| 0 <= i < front.len() && front[i] == p;
                assert(list[i] == p);
            } else {
                assert(p == (before, y));
                assert(list[front.len() as int] == p);
            }
        }
    }
}

/// A scan lists exactly the cells that satisfy the test, each once, row by row.
pub proof fn lemma_scan(test: spec_fn(int, int) -> bool, width: usize, y: usize)
    ensures
        row_major(scan(test, width as int, y as int)),
        forall|i: int|
            0 <= i < scan(test, width as int, y as int).len() ==> {
                &&& (#[trigger] scan(test, width as int, y as int)[i]).0 < width
                &&& scan(test, width as int, y as int)[i].1 < y
                &&& test(
                    scan(test, width as int, y as int)[i].0 as int,
                    scan(test, width as int, y as int)[i].1 as int,
                )
            },
        forall|p: (usize, usize)|
            p.0 < width && p.1 < y && test(p.0 as int, p.1 as int) ==> #[trigger] scan(
                test,
                width as int,
                y as int,
            ).contains(p),
    decreases y,
{
    if y > 0 {
        let above = (y - 1) as usize;
        lemma_scan(test, width, above);
        lemma_scan_row(test, above, width);
        let front = scan(test, width as int, above as int);
        let row = scan_row(test, above as int, width as int);
        let list = scan(test, width as int, y as int);
        assert(list == front + row);
        assert forall|i: int| 0 <= i < list.len() implies {
            &&& (#[trigger] list[i]).0 < width
            &&& list[i].1 < y
            &&& test(list[i].0 as int, list[i].1 as int)
        } by {
            if i < front.len() {
                assert(list[i] == front[i]);
            } else {
                assert(list[i] == row[i - front.len()]);
            }
        }
        assert forall|i: int, j: int| 0 <= i < j < list.len() implies earlier(
            #[trigger] list[i],
            #[trigger] list[j],
        ) by {
            if j < front.len() {
                assert(list[i] == front[i] && list[j] == front[j]);
            } else if i >= front.len() {
                assert(list[i] == row[i - front.len()] && list[j] == row[j - front.len()]);
            } else {
                assert(list[i] == front[i] && list[j] == row[j - front.len()]);
            }
        }
        assert forall|p: (usize, usize)|
            p.0 < width && p.1 < y && test(p.0 as int, p.1 as int) implies #[trigger] list.contains(
            p,
        ) by {
            if p.1 < above {
                assert(front.contains(p));
                let i = choose|i: int| 0 <= i < front.len() && front[i] == p;
                assert(list[i] == p);
            } else {
                assert(row.contains(p));
                let i = choose|i: int| 0 <= i < row.len() && row[i] == p;
                assert(list[front.len() + i] == p);
            }
        }
    }
}

/// A scan lists no more cells than there are.
pub proof fn lemma_scan_bound(test: spec_fn(int, int) -> bool, width: int, y: int)
    requires
        width >= 0,
        y >= 0,
    ensures
        scan(test, width, y).len() <= width * y,
    decreases y,
{
    if y > 0 {
        lemma_scan_bound(test, width, y - 1);
        lemma_scan_row_bound(test, y - 1, width);
        assert(width * (y - 1) + width == width * y) by (nonlinear_arith);
    } else {
        assert(width * 0 == 0) by (nonlinear_arith);
    }
}

proof fn lemma_scan_row_bound(test: spec_fn(int, int) -> bool, y: int, x: int)
    requires
        x >= 0,
    ensures
        scan_row(test, y, x).len() <= x,
    decreases x,
{
    if x > 0 {
        lemma_scan_row_bound(test, y, x - 1);
    }
}

/// A test that holds of every cell but one lists all cells but that one.
pub proof fn lemma_scan_all_but(
    test: spec_fn(int, int) -> bool,
    width: int,
    y: int,
    p: (int, int),
)
    requires
        width >= 0,
        y >= 0,
        0 <= p.0 < width,
        0 <= p.1,
        forall|i: int, j: int|
            0 <= i < width && 0 <= j < y ==> #[trigger] test(i, j) == ((i, j) != p),
    ensures
        scan(test, width, y).len() == width * y - if p.1 < y {
            1int
        } else {
            0int
        },
    decreases y,
{
    if y > 0 {
        lemma_scan_all_but(test, width, y - 1, p);
        lemma_scan_row_all_but(test, y - 1, width, p);
        assert(width * (y - 1) + width == width * y) by (nonlinear_arith);
    } else {
        assert(width * 0 == 0) by (nonlinear_arith);
    }
}

proof fn lemma_scan_row_all_but(test: spec_fn(int, int) -> bool, y: int, x: int, p: (int, int))
    requires
        x >= 0,
        forall|i: int| 0 <= i < x ==> #[trigger] test(i, y) == ((i, y) != p),
        0 <= p.0,
    ensures
        scan_row(test, y, x).len() == x - if p.1 == y && p.0 < x {
            1int
        } else {
            0int
        },
    decreases x,
{
    if x > 0 {
        lemma_scan_row_all_but(test, y, x - 1, p);
        assert(test(x - 1, y) == ((x - 1, y) != p));
    }
}

/// Two tests that agree on the board scan alike.
pub proof fn lemma_scan_same(
    a: spec_fn(int, int) -> bool,
    b: spec_fn(int, int) -> bool,
    width: int,
    y: int,
)
    requires
        forall|i: int, j: int| 0 <= i < width && 0 <= j < y ==> #[trigger] a(i, j) == b(i, j),
    ensures
        scan(a, width, y) == scan(b, width, y),
    decreases y,
{
    if y > 0 {
        lemma_scan_same(a, b, width, y - 1);
        lemma_scan_row_same(a, b, y - 1, width);
    }
}

proof fn lemma_scan_row_same(
    a: spec_fn(int, int) -> bool,
    b: spec_fn(int, int) -> bool,
    y: int,
    x: int,
)
    requires
        forall|i: int| 0 <= i < x ==> #[trigger] a(i, y) == b(i, y),
    ensures
        scan_row(a, y, x) == scan_row(b, y, x),
    decreases x,
{
    if x > 0 {
        lemma_scan_row_same(a, b, y, x - 1);
    }
}

// ---------------------------------------------------------------------------
// The game
// ---------------------------------------------------------------------------

impl Minesweeper {
    /// The grid has the shape that `width` and `height` say.
    pub open spec fn wf(self) -> bool {
        &&& self.grid@.len() == self.height
        &&& forall|y: int|
            0 <= y < self.height ==> (#[trigger] self.grid@[y])@.len() == self.width
    }

    /// The cell at a position.
    pub open spec fn at(self, x: int, y: int) -> Cell {
        self.grid@[y]@[x]
    }

    /// Whether a position lies on this board.
    pub open spec fn has(self, x: int, y: int) -> bool {
        on_board(x, y, self.width as int, self.height as int)
    }

    /// Whether there is a mine at a position.
    pub open spec fn mine_at(self, x: int, y: int) -> bool {
        self.at(x, y).content == CellContent::Mine
    }

    /// The positions of all mines.
    pub open spec fn mine_spots(self) -> Set<(int, int)> {
        Set::new(|p: (int, int)| self.has(p.0, p.1) && self.mine_at(p.0, p.1))
    }

    /// How many of the listed cells are mines.
    pub open spec fn mines_in(self, cells: Seq<(usize, usize)>) -> nat
        decreases cells.len(),
    {
        if cells.len() == 0 {
            0
        } else {
            let last = spot(cells.last());
            self.mines_in(cells.drop_last()) + if self.mine_at(last.0, last.1) {
                1nat
            } else {
                0nat
            }
        }
    }

    /// The neighbours of a cell of this board.
    pub open spec fn around(self, x: int, y: int) -> Seq<(usize, usize)> {
        neighbours_of(x, y, self.width as int, self.height as int)
    }

    /// Every cell without a mine carries the number of mines around it.
    pub open spec fn numbered(self) -> bool {
        forall|x: int, y: int|
            self.has(x, y) && !self.mine_at(x, y) ==> (#[trigger] self.at(x, y)).content
                == CellContent::Empty(self.mines_in(self.around(x, y)) as u8)
    }

    /// Every cell without a mine is visible.
    pub open spec fn cleared(self) -> bool {
        forall|x: int, y: int|
            self.has(x, y) && !self.mine_at(x, y) ==> (#[trigger] self.at(x, y)).state
                == CellState::Visible
    }

    /// The same game but for the cells.
    pub open spec fn same_frame(self, other: Minesweeper) -> bool {
        &&& self.width == other.width
        &&& self.height == other.height
        &&& self.mines_count == other.mines_count
        &&& self.wf() == other.wf()
    }

    /// The same contents under every cell.
    pub open spec fn same_contents(self, other: Minesweeper) -> bool {
        forall|x: int, y: int|
            other.has(x, y) ==> (#[trigger] self.at(x, y)).content == other.at(x, y).content
    }

    /// The same state of every cell.
    pub open spec fn same_states(self, other: Minesweeper) -> bool {
        forall|x: int, y: int|
            other.has(x, y) ==> (#[trigger] self.at(x, y)).state == other.at(x, y).state
    }

    /// A new game, with every cell hidden and no mines placed yet.
    pub fn new(width: usize, height: usize, mines_count: usize) -> (game: Self)
        ensures
            game.wf(),
            game.width == width,
            game.height == height,
            game.mines_count == mines_count,
            game.state == GameState::Playing,
            !game.mines_generated,
            forall|x: int, y: int|
                game.has(x, y) ==> #[trigger] game.at(x, y) == (Cell {
                    state: CellState::Hidden,
                    content: CellContent::Empty(0),
                }),
    {
        let mut grid: Vec<Vec<Cell>> = Vec::new();
        for y in 0..height
            invariant
                grid@.len() == y,
                forall|j: int| 0 <= j < y ==> (#[trigger] grid@[j])@.len() == width,
                forall|i: int, j: int|
                    0 <= j < y && 0 <= i < width ==> #[trigger] grid@[j]@[i] == (Cell {
                        state: CellState::Hidden,
                        content: CellContent::Empty(0),
                    }),
        {
            let mut row: Vec<Cell> = Vec::new();
            for x in 0..width
                invariant
                    row@.len() == x,
                    forall|i: int|
                        0 <= i < x ==> #[trigger] row@[i] == (Cell {
                            state: CellState::Hidden,
                            content: CellContent::Empty(0),
                        }),
            {
                row.push(Cell::new());
            }
            grid.push(row);
        }
        Self { width, height, mines_count, grid, state: GameState::Playing, mines_generated: false }
    }

    /// Whether there is a mine at a position.
    fn is_mine(&self, x: usize, y: usize) -> (mine: bool)
        requires
            self.wf(),
            self.has(x as int, y as int),
        ensures
            mine == self.mine_at(x as int, y as int),
    {
        match self.grid[y][x].content {
            CellContent::Mine => true,
            CellContent::Empty(_) => false,
        }
    }

    /// Changes the state of one cell.
    fn set_state(&mut self, x: usize, y: usize, state: CellState)
        requires
            old(self).wf(),
            old(self).has(x as int, y as int),
        ensures
            final(self).wf(),
            final(self).same_frame(*old(self)),
            final(self).state == old(self).state,
            final(self).mines_generated == old(self).mines_generated,
            forall|i: int, j: int|
                old(self).has(i, j) ==> #[trigger] final(self).at(i, j) == if i == x && j == y {
                    Cell { state, content: old(self).at(i, j).content }
                } else {
                    old(self).at(i, j)
                },
    {
        self.grid[y][x].state = state;
        assert(self.wf()) by {
            assert forall|j: int| 0 <= j < self.height implies (
            #[trigger] self.grid@[j])@.len() == self.width by {
                assert(old(self).grid@[j]@.len() == self.width);
            }
        }
    }

    /// Changes the content of one cell.
    fn set_content(&mut self, x: usize, y: usize, content: CellContent)
        requires
            old(self).wf(),
            old(self).has(x as int, y as int),
        ensures
            final(self).wf(),
            final(self).same_frame(*old(self)),
            final(self).state == old(self).state,
            final(self).mines_generated == old(self).mines_generated,
            forall|i: int, j: int|
                old(self).has(i, j) ==> #[trigger] final(self).at(i, j) == if i == x && j == y {
                    Cell { state: old(self).at(i, j).state, content }
                } else {
                    old(self).at(i, j)
                },
    {
        self.grid[y][x].content = content;
        assert(self.wf()) by {
            assert forall|j: int| 0 <= j < self.height implies (
            #[trigger] self.grid@[j])@.len() == self.width by {
                assert(old(self).grid@[j]@.len() == self.width);
            }
        }
    }

    /// How many of the cells around a position are mines.
    fn count_neighbor_mines(&self, x: usize, y: usize) -> (count: u8)
        requires
            self.wf(),
            self.has(x as int, y as int),
        ensures
            count == self.mines_in(self.around(x as int, y as int)),
    {
        let list: Vec<(usize, usize)> = neighbours(x, y, self.width, self.height);
        proof {
            lemma_neighbours(x as int, y as int, self.width, self.height);
        }
        let mut count: u8 = 0;
        for i in 0..list.len()
            invariant
                self.wf(),
                list@.len() <= 8,
                all_adjacent(list@, x as int, y as int, self.width as int, self.height as int),
                count <= i,
                count == self.mines_in(list@.take(i as int)),
        {
            assert(list@.take(i + 1).drop_last() =~= list@.take(i as int));
            if self.is_mine(list[i].0, list[i].1) {
                count = count + 1;
            }
        }
        assert(list@.take(list@.len() as int) =~= list@);
        count
    }

    // -- placing the mines ---------------------------------------------------

    /// Whether a mine may still be put on a cell when the first click is at `(sx, sy)`.
    pub open spec fn free_test(self, sx: int, sy: int) -> spec_fn(int, int) -> bool {
        |x: int, y: int| !self.mine_at(x, y) && !(x == sx && y == sy)
    }

    /// The cells a mine may still be put on.
    pub open spec fn free_cells(self, sx: int, sy: int) -> Seq<(usize, usize)> {
        scan(self.free_test(sx, sy), self.width as int, self.height as int)
    }

    /// Whether `picks` are valid draws: the `i`-th one is below the number of cells
    /// that are free after `i` draws.
    pub open spec fn valid_picks(self, sx: int, sy: int, picks: Seq<usize>) -> bool {
        &&& picks.len() <= self.free_cells(sx, sy).len()
        &&& forall|i: int|
            0 <= i < picks.len() ==> #[trigger] picks[i] < self.free_cells(sx, sy).len() - i
    }

    /// The cells that a sequence of draws puts a mine on.
    pub open spec fn mined_by(self, sx: int, sy: int, picks: Seq<usize>) -> Seq<(usize, usize)> {
        drawn(self.free_cells(sx, sy), picks, picks.len() as int)
    }

    /// Whether `after` is this game with mines at the drawn cells and the numbers
    /// filled in.
    pub open spec fn dealt(self, sx: int, sy: int, picks: Seq<usize>, after: Minesweeper) -> bool {
        &&& after.same_frame(self)
        &&& after.state == self.state
        &&& after.mines_generated
        &&& after.same_states(self)
        &&& forall|x: int, y: int|
            self.has(x, y) ==> ((#[trigger] after.at(x, y)).content == CellContent::Mine <==> (
            self.mine_at(x, y) || self.mined_by(sx, sy, picks).contains((x as usize, y as usize))))
        &&& after.numbered()
    }

    /// Lists the cells a mine may still be put on.
    fn list_free(&self, sx: usize, sy: usize) -> (free: Vec<(usize, usize)>)
        requires
            self.wf(),
        ensures
            free@ == self.free_cells(sx as int, sy as int),
    {
        let ghost test = self.free_test(sx as int, sy as int);
        let mut free: Vec<(usize, usize)> = Vec::new();
        for y in 0..self.height
            invariant
                self.wf(),
                test == self.free_test(sx as int, sy as int),
                free@ == scan(test, self.width as int, y as int),
        {
            let ghost above = free@;
            for x in 0..self.width
                invariant
                    self.wf(),
                    y < self.height,
                    test == self.free_test(sx as int, sy as int),
                    free@ == above + scan_row(test, y as int, x as int),
            {
                if !self.is_mine(x, y) && !(x == sx && y == sy) {
                    free.push((x, y));
                }
                assert(free@ =~= above + scan_row(test, y as int, x + 1));
            }
            assert(free@ =~= scan(test, self.width as int, y + 1));
        }
        free
    }

    /// Puts a mine on each drawn cell and fills in the numbers.
    ///
    /// The `i`-th draw picks one of the cells that are still free after the earlier
    /// ones; the first click at `(sx, sy)` is never among them.
    pub fn place_mines(&mut self, sx: usize, sy: usize, picks: &Vec<usize>)
        requires
            old(self).wf(),
            old(self).valid_picks(sx as int, sy as int, picks@),
        ensures
            old(self).dealt(sx as int, sy as int, picks@, *final(self)),
            final(self).wf(),
    {
        let ghost start = *self;
        let ghost free = self.free_cells(sx as int, sy as int);
        let mut left: Vec<(usize, usize)> = self.list_free(sx, sy);
        proof {
            lemma_scan(self.free_test(sx as int, sy as int), self.width, self.height);
        }
        for i in 0..picks.len()
            invariant
                self.wf(),
                self.same_frame(start),
                self.state == start.state,
                self.same_states(start),
                start.wf(),
                free == start.free_cells(sx as int, sy as int),
                start.valid_picks(sx as int, sy as int, picks@),
                row_major(free),
                forall|k: int|
                    0 <= k < free.len() ==> (#[trigger] free[k]).0 < start.width && free[k].1
                        < start.height,
                left@ == left_after(free, picks@, i as int),
                forall|x: int, y: int|
                    start.has(x, y) ==> ((#[trigger] self.at(x, y)).content == CellContent::Mine
                        <==> (start.mine_at(x, y) || drawn(free, picks@, i as int).contains(
                        (x as usize, y as usize),
                    ))),
        {
            let ghost before = *self;
            let ghost taken = drawn(free, picks@, i as int);
            proof {
                lemma_drawn(free, picks@, i as int);
            }
            let cell: (usize, usize) = left.swap_remove(picks[i]);
            proof {
                assert(free.contains(cell));
                let k = choose|k: int| 0 <= k < free.len() && free[k] == cell;
            }
            self.set_content(cell.0, cell.1, CellContent::Mine);
            proof {
                let now = drawn(free, picks@, i + 1);
                assert(now == taken.push(cell));
                assert forall|x: int, y: int| start.has(x, y) implies ((
                #[trigger] self.at(x, y)).content == CellContent::Mine <==> (start.mine_at(x, y)
                    || now.contains((x as usize, y as usize)))) by {
                    let p = (x as usize, y as usize);
                    assert(before.has(x, y));
                    assert((before.at(x, y)).content == CellContent::Mine <==> (start.mine_at(x, y)
                        || taken.contains(p)));
                    if p == cell {
                        assert(now[taken.len() as int] == p);
                    } else {
                        if taken.contains(p) {
                            let k = choose|k: int| 0 <= k < taken.len() && taken[k] == p;
                            assert(now[k] == p);
                        }
                        if now.contains(p) {
                            let k = choose|k: int| 0 <= k < now.len() && now[k] == p;
                            assert(taken[k] == p);
                        }
                    }
                }
            }
        }
        let ghost mined = *self;
        self.fill_numbers();
        let ghost filled = *self;
        self.mines_generated = true;
        proof {
            assert forall|x: int, y: int| self.has(x, y) && !self.mine_at(x, y) implies (
            #[trigger] self.at(x, y)).content == CellContent::Empty(
                self.mines_in(self.around(x, y)) as u8,
            ) by {
                assert(filled.has(x, y) && !filled.mine_at(x, y));
                assert(filled.at(x, y) == self.at(x, y));
                lemma_mines_in_same(*self, filled, self.around(x, y));
            }
            assert forall|x: int, y: int| start.has(x, y) implies ((
            #[trigger] self.at(x, y)).content == CellContent::Mine <==> (start.mine_at(x, y)
                || start.mined_by(sx as int, sy as int, picks@).contains(
                (x as usize, y as usize),
            ))) by {
                assert(filled.mine_at(x, y) <==> self.mine_at(x, y));
                assert(mined.at(x, y).content == CellContent::Mine <==> mined.mine_at(x, y));
            }
            assert forall|x: int, y: int| start.has(x, y) implies (
            #[trigger] self.at(x, y)).state == start.at(x, y).state by {
                assert(filled.at(x, y).state == mined.at(x, y).state);
            }
        }
    }

    /// Writes under every cell without a mine how many mines are around it.
    fn fill_numbers(&mut self)
        requires
            old(self).wf(),
        ensures
            final(self).wf(),
            final(self).same_frame(*old(self)),
            final(self).state == old(self).state,
            final(self).mines_generated == old(self).mines_generated,
            final(self).same_states(*old(self)),
            forall|x: int, y: int|
                old(self).has(x, y) ==> (#[trigger] final(self).mine_at(x, y) <==> old(self).mine_at(x, y)),
            final(self).numbered(),
    {
        let ghost start = *self;
        let width: usize = self.width;
        let height: usize = self.height;
        for y in 0..height
            invariant
                self.wf(),
                self.same_frame(start),
                width == start.width,
                height == start.height,
                self.state == start.state,
                self.mines_generated == start.mines_generated,
                self.same_states(start),
                forall|i: int, j: int|
                    start.has(i, j) ==> (#[trigger] self.mine_at(i, j) <==> start.mine_at(i, j)),
                forall|i: int, j: int|
                    start.has(i, j) && j < y && !start.mine_at(i, j) ==> (#[trigger] self.at(
                        i,
                        j,
                    )).content == CellContent::Empty(start.mines_in(start.around(i, j)) as u8),
        {
            for x in 0..width
                invariant
                    self.wf(),
                    y < height,
                    self.same_frame(start),
                    width == start.width,
                    height == start.height,
                    self.state == start.state,
                    self.mines_generated == start.mines_generated,
                    self.same_states(start),
                    forall|i: int, j: int|
                        start.has(i, j) ==> (#[trigger] self.mine_at(i, j) <==> start.mine_at(
                            i,
                            j,
                        )),
                    forall|i: int, j: int|
                        start.has(i, j) && (j < y || j == y && i < x) && !start.mine_at(i, j)
                            ==> (#[trigger] self.at(i, j)).content == CellContent::Empty(
                            start.mines_in(start.around(i, j)) as u8,
                        ),
            {
                let ghost before = *self;
                assert(self.mine_at(x as int, y as int) <==> start.mine_at(x as int, y as int));
                if !self.is_mine(x, y) {
                    let mines: u8 = self.count_neighbor_mines(x, y);
                    self.set_content(x, y, CellContent::Empty(mines));
                    proof {
                        lemma_neighbours(x as int, y as int, width, height);
                        lemma_mines_in_same(
                            before,
                            start,
                            start.around(x as int, y as int),
                        );
                        assert forall|i: int, j: int| start.has(i, j) implies (
                        #[trigger] self.mine_at(i, j) <==> start.mine_at(i, j)) by {
                            assert(before.has(i, j));
                            assert(before.mine_at(i, j) <==> start.mine_at(i, j));
                            assert(self.at(i, j).content == if i == x && j == y {
                                CellContent::Empty(mines)
                            } else {
                                before.at(i, j).content
                            });
                        }
                        assert forall|i: int, j: int|
                            start.has(i, j) && (j < y || j == y && i < x + 1) && !start.mine_at(
                                i,
                                j,
                            ) implies (#[trigger] self.at(i, j)).content == CellContent::Empty(
                            start.mines_in(start.around(i, j)) as u8,
                        ) by {
                            assert(before.has(i, j));
                        }
                    }
                }
            }
        }
        proof {
            assert forall|x: int, y: int| self.has(x, y) && !self.mine_at(x, y) implies (
            #[trigger] self.at(x, y)).content == CellContent::Empty(
                self.mines_in(self.around(x, y)) as u8,
            ) by {
                lemma_neighbours(x, y, width, height);
                assert(start.has(x, y));
                lemma_mines_in_same(*self, start, start.around(x, y));
            }
        }
    }
}

impl Minesweeper {
    /// Draws where the mines go and places them. The first click at `(sx, sy)` gets none.
    ///
    /// Each mine takes one draw, below the number of cells that are still free, and
    /// nothing else is drawn.
    fn generate_mines(&mut self, sx: usize, sy: usize, dice: &mut Dice)
        requires
            old(self).wf(),
            old(self).mines_count <= old(self).free_cells(sx as int, sy as int).len(),
        ensures
            final(self).wf(),
            exists|picks: Seq<usize>|
                picks.len() == old(self).mines_count && old(self).valid_picks(
                    sx as int,
                    sy as int,
                    picks,
                ) && #[trigger] old(self).dealt(sx as int, sy as int, picks, *final(self)) && final(
                    dice).rolls() == old(dice).rolls() + chance::rolls_of(
                    picks,
                    old(self).free_cells(sx as int, sy as int).len(),
                ),
    {
        let ghost start = dice.rolls();
        let free: usize = self.list_free(sx, sy).len();
        let count: usize = self.mines_count;
        let mut picks: Vec<usize> = Vec::new();
        assert(start + chance::rolls_of(picks@, free as nat) =~= start);
        for i in 0..count
            invariant
                count <= free,
                picks@.len() == i,
                forall|k: int| 0 <= k < i ==> #[trigger] picks@[k] < free - k,
                dice.rolls() == start + chance::rolls_of(picks@, free as nat),
        {
            let ghost before = picks@;
            let pick: usize = dice.roll(free - i);
            picks.push(pick);
            proof {
                chance::lemma_rolls_push(before, free as nat, pick);
                assert(dice.rolls() =~= start + chance::rolls_of(picks@, free as nat));
            }
        }
        self.place_mines(sx, sy, &picks);
    }

    // -- revealing -----------------------------------------------------------

    /// Whether a position is on the board and hidden.
    pub open spec fn hidden_at(self, p: (int, int)) -> bool {
        self.has(p.0, p.1) && self.at(p.0, p.1).state == CellState::Hidden
    }

    /// A chain of hidden, touching cells, all but the last with nothing around them.
    pub open spec fn opening_path(self, path: Seq<(int, int)>) -> bool {
        &&& path.len() > 0
        &&& forall|i: int| 0 <= i < path.len() ==> self.hidden_at(#[trigger] path[i])
        &&& forall|i: int|
            #![trigger path[i]]
            0 <= i < path.len() - 1 ==> self.at(path[i].0, path[i].1).content
                == CellContent::Empty(0) && adjacent(path[i], path[i + 1])
    }

    /// The cells that revealing `(x, y)` opens: those that a chain leads to.
    pub open spec fn opened(self, x: int, y: int) -> Set<(int, int)> {
        Set::new(
            |p: (int, int)|
                exists|path: Seq<(int, int)>| #[trigger]
                    self.opening_path(path) && path[0] == (x, y) && path.last() == p,
        )
    }

    /// Whether `after` is this game once the cell at `(x, y)` is uncovered.
    pub open spec fn uncovered(self, x: int, y: int, after: Minesweeper) -> bool {
        &&& after.same_frame(self)
        &&& after.mines_generated == self.mines_generated
        &&& after.same_contents(self)
        &&& if self.at(x, y).state != CellState::Hidden {
            after.state == self.state && after.same_states(self)
        } else if self.mine_at(x, y) {
            &&& after.state == GameState::Lost
            &&& forall|i: int, j: int|
                self.has(i, j) ==> (#[trigger] after.at(i, j)).state == if self.mine_at(i, j) {
                    CellState::Visible
                } else {
                    self.at(i, j).state
                }
        } else {
            &&& after.state == if after.cleared() {
                GameState::Won
            } else {
                self.state
            }
            &&& forall|i: int, j: int|
                self.has(i, j) ==> (#[trigger] after.at(i, j)).state == if self.opened(
                    x,
                    y,
                ).contains((i, j)) {
                    CellState::Visible
                } else {
                    self.at(i, j).state
                }
        }
    }

    /// The positions of all hidden cells.
    pub open spec fn hidden_spots(self) -> Set<(int, int)> {
        Set::new(|p: (int, int)| self.hidden_at(p))
    }

    /// Opens a hidden cell and, where it has nothing around it, its surroundings.
    fn open_area(&mut self, x: usize, y: usize)
        requires
            old(self).wf(),
            old(self).hidden_at((x as int, y as int)),
        ensures
            final(self).wf(),
            final(self).same_frame(*old(self)),
            final(self).state == old(self).state,
            final(self).mines_generated == old(self).mines_generated,
            final(self).same_contents(*old(self)),
            forall|i: int, j: int|
                old(self).has(i, j) ==> (#[trigger] final(self).at(i, j)).state == if old(self).opened(x as int, y as int).contains((i, j)) {
                    CellState::Visible
                } else {
                    old(self).at(i, j).state
                },
    {
        let ghost start = *self;
        let ghost from = (x as int, y as int);
        self.set_state(x, y, CellState::Visible);
        let mut stack: Vec<(usize, usize)> = Vec::new();
        stack.push((x, y));
        proof {
            let path = seq![from];
            assert(start.opening_path(path));
            assert(start.opened(x as int, y as int).contains(from));
            assert(stack@[0] == (x, y));
            assert(self.flooded(start, from));
            assert forall|p: (int, int)| #[trigger]
                newly(start, *self, p) && start.at(p.0, p.1).content == CellContent::Empty(
                    0,
                ) implies settled(*self, p) || stack@.contains((p.0 as usize, p.1 as usize)) by {
                assert(p == from);
            }
        }
        while stack.len() > 0
            invariant
                self.flooded(start, from),
                start.wf(),
                start.hidden_at(from),
                from == (x as int, y as int),
                newly(start, *self, from),
                forall|k: int| 0 <= k < stack@.len() ==> newly(start, *self, #[trigger] spot(stack@[k])),
                forall|p: (int, int)| #[trigger]
                    newly(start, *self, p) && start.at(p.0, p.1).content == CellContent::Empty(0)
                        ==> settled(*self, p) || stack@.contains((p.0 as usize, p.1 as usize)),
            decreases self.hidden_spots().len(), stack@.len(),
        {
            let ghost piled = stack@;
            let cell: (usize, usize) = stack.pop().unwrap();
            let ghost c = spot(cell);
            proof {
                assert(piled[piled.len() - 1] == cell);
                assert(newly(start, *self, spot(piled[piled.len() - 1])));
                assert(piled =~= stack@.push(cell));
                assert forall|p: (int, int)| #[trigger]
                    newly(start, *self, p) && start.at(p.0, p.1).content == CellContent::Empty(0)
                        && p != c implies settled(*self, p) || stack@.contains(
                    (p.0 as usize, p.1 as usize),
                ) by {
                    let q = (p.0 as usize, p.1 as usize);
                    if piled.contains(q) {
                        let k = choose|k: int| 0 <= k < piled.len() && piled[k] == q;
                        assert(k < stack@.len());
                        assert(stack@[k] == q);
                    }
                }
                assert forall|k: int| 0 <= k < stack@.len() implies newly(
                    start,
                    *self,
                    #[trigger] spot(stack@[k]),
                ) by {
                    assert(spot(stack@[k]) == spot(piled[k]));
                }
            }
            match self.grid[cell.1][cell.0].content {
                CellContent::Empty(0) => {
                    self.open_neighbours(&mut stack, cell, Ghost(start), Ghost(from));
                },
                _ => {},
            }
        }
        proof {
            let opened = start.opened(x as int, y as int);
            assert forall|i: int, j: int| start.has(i, j) implies (
            #[trigger] self.at(i, j)).state == if opened.contains((i, j)) {
                CellState::Visible
            } else {
                start.at(i, j).state
            } by {
                let p = (i, j);
                if opened.contains(p) {
                    let path = choose|path: Seq<(int, int)>| #[trigger]
                        start.opening_path(path) && path[0] == from && path.last() == p;
                    lemma_path_opened(start, *self, from, path, path.len() - 1);
                    assert(newly(start, *self, p));
                }
            }
        }
    }

    /// Every change so far opened a cell that a chain from `from` leads to.
    spec fn flooded(self, start: Minesweeper, from: (int, int)) -> bool {
        &&& self.wf()
        &&& self.same_frame(start)
        &&& self.state == start.state
        &&& self.mines_generated == start.mines_generated
        &&& self.same_contents(start)
        &&& forall|i: int, j: int|
            start.has(i, j) ==> (#[trigger] self.at(i, j)).state == start.at(i, j).state || (
            start.at(i, j).state == CellState::Hidden && self.at(i, j).state == CellState::Visible
                && start.opened(from.0, from.1).contains((i, j)))
    }

    /// Opens the hidden neighbours of a cell with nothing around it, and lists them
    /// for their turn.
    fn open_neighbours(
        &mut self,
        stack: &mut Vec<(usize, usize)>,
        cell: (usize, usize),
        Ghost(start): Ghost<Minesweeper>,
        Ghost(from): Ghost<(int, int)>,
    )
        requires
            old(self).flooded(start, from),
            start.wf(),
            newly(start, *old(self), from),
            newly(start, *old(self), spot(cell)),
            start.at(cell.0 as int, cell.1 as int).content == CellContent::Empty(0),
            forall|k: int|
                0 <= k < old(stack)@.len() ==> newly(
                    start,
                    *old(self),
                    #[trigger] spot(old(stack)@[k]),
                ),
            forall|p: (int, int)| #[trigger]
                newly(start, *old(self), p) && start.at(p.0, p.1).content == CellContent::Empty(0)
                    && p != spot(cell) ==> settled(*old(self), p) || old(stack)@.contains(
                    (p.0 as usize, p.1 as usize),
                ),
        ensures
            final(self).flooded(start, from),
            newly(start, *final(self), from),
            forall|k: int|
                0 <= k < final(stack)@.len() ==> newly(
                    start,
                    *final(self),
                    #[trigger] spot(final(stack)@[k]),
                ),
            forall|p: (int, int)| #[trigger]
                newly(start, *final(self), p) && start.at(p.0, p.1).content == CellContent::Empty(0)
                    ==> settled(*final(self), p) || final(stack)@.contains(
                    (p.0 as usize, p.1 as usize),
                ),
            final(self).hidden_spots().len() < old(self).hidden_spots().len() || final(self).hidden_spots().len() == old(self).hidden_spots().len() && final(stack)@.len() == old(stack)@.len(),
    {
        let ghost outer = *self;
        let ghost c = spot(cell);
        let ghost piled = stack@;
        let list: Vec<(usize, usize)> = neighbours(cell.0, cell.1, self.width, self.height);
        proof {
            lemma_neighbours(c.0, c.1, self.width, self.height);
        }
        for i in 0..list.len()
            invariant
                self.flooded(start, from),
                start.wf(),
                c == spot(cell),
                start.has(c.0, c.1),
                newly(start, *self, from),
                newly(start, *self, c),
                start.at(c.0, c.1).content == CellContent::Empty(0),
                list@ == start.around(c.0, c.1),
                all_adjacent(list@, c.0, c.1, start.width as int, start.height as int),
                forall|k: int| 0 <= k < stack@.len() ==> newly(start, *self, #[trigger] spot(stack@[k])),
                forall|p: (int, int)| #[trigger]
                    newly(start, *self, p) && start.at(p.0, p.1).content == CellContent::Empty(0)
                        && p != c ==> settled(*self, p) || stack@.contains(
                        (p.0 as usize, p.1 as usize),
                    ),
                forall|k: int| 0 <= k < i ==> !self.hidden_at(spot(#[trigger] list@[k])),
                self.hidden_spots().len() < outer.hidden_spots().len()
                    || self.hidden_spots().len() == outer.hidden_spots().len() && stack@.len()
                    == piled.len(),
        {
            let next: (usize, usize) = list[i];
            let ghost n = spot(next);
            let ghost before = *self;
            let ghost waiting = stack@;
            if self.grid[next.1][next.0].state == CellState::Hidden {
                self.set_state(next.0, next.1, CellState::Visible);
                stack.push(next);
                proof {
                    lemma_hidden_finite(before);
                    assert(self.hidden_spots() =~= before.hidden_spots().remove(n));
                    assert(before.hidden_spots().contains(n));
                    lemma_opened_next(start, from, c, n);
                    assert forall|p: (int, int)| newly(start, before, p) implies #[trigger] newly(
                        start,
                        *self,
                        p,
                    ) by {}
                    assert(newly(start, *self, n));
                    assert forall|k: int| 0 <= k < stack@.len() implies newly(
                        start,
                        *self,
                        #[trigger] spot(stack@[k]),
                    ) by {
                        if k < waiting.len() {
                            assert(newly(start, before, spot(waiting[k])));
                        }
                    }
                    assert forall|p: (int, int)| #[trigger]
                        newly(start, *self, p) && start.at(p.0, p.1).content == CellContent::Empty(
                            0,
                        ) && p != c implies settled(*self, p) || stack@.contains(
                        (p.0 as usize, p.1 as usize),
                    ) by {
                        let q = (p.0 as usize, p.1 as usize);
                        if p == n {
                            assert(stack@[waiting.len() as int] == q);
                        } else {
                            assert(newly(start, before, p));
                            if waiting.contains(q) {
                                let k = choose|k: int| 0 <= k < waiting.len() && waiting[k] == q;
                                assert(stack@[k] == q);
                            } else {
                                assert(settled(before, p));
                                assert forall|r: (int, int)| adjacent(p, r) implies !#[trigger] self.hidden_at(
                                    r,
                                ) by {
                                    assert(!before.hidden_at(r));
                                }
                            }
                        }
                    }
                    assert forall|k: int| 0 <= k < i + 1 implies !self.hidden_at(
                        spot(#[trigger] list@[k]),
                    ) by {
                        if k < i {
                            assert(!before.hidden_at(spot(list@[k])));
                        }
                    }
                }
            }
        }
        assert(settled(*self, c)) by {
            assert forall|q: (int, int)| adjacent(c, q) implies !#[trigger] self.hidden_at(q) by {
                if self.has(q.0, q.1) {
                    let u = (q.0 as usize, q.1 as usize);
                    assert(spot(u) == q);
                    assert(list@.contains(u));
                    let k = choose|k: int| 0 <= k < list@.len() && list@[k] == u;
                    assert(!self.hidden_at(spot(list@[k])));
                }
            }
        }
    }

    /// Shows every mine.
    fn reveal_all_mines(&mut self)
        requires
            old(self).wf(),
        ensures
            final(self).wf(),
            final(self).same_frame(*old(self)),
            final(self).state == old(self).state,
            final(self).mines_generated == old(self).mines_generated,
            final(self).same_contents(*old(self)),
            forall|i: int, j: int|
                old(self).has(i, j) ==> (#[trigger] final(self).at(i, j)).state == if old(self).mine_at(i, j) {
                    CellState::Visible
                } else {
                    old(self).at(i, j).state
                },
    {
        let ghost start = *self;
        let width: usize = self.width;
        let height: usize = self.height;
        for y in 0..height
            invariant
                self.wf(),
                self.same_frame(start),
                width == start.width,
                height == start.height,
                self.state == start.state,
                self.mines_generated == start.mines_generated,
                forall|i: int, j: int|
                    start.has(i, j) ==> #[trigger] self.at(i, j) == start.shown(i, j, j < y),
        {
            for x in 0..width
                invariant
                    self.wf(),
                    y < height,
                    self.same_frame(start),
                    width == start.width,
                    height == start.height,
                    self.state == start.state,
                    self.mines_generated == start.mines_generated,
                    forall|i: int, j: int|
                        start.has(i, j) ==> #[trigger] self.at(i, j) == start.shown(
                            i,
                            j,
                            j < y || j == y && i < x,
                        ),
            {
                let ghost before = *self;
                assert(self.at(x as int, y as int) == start.shown(x as int, y as int, false));
                if self.is_mine(x, y) {
                    self.set_state(x, y, CellState::Visible);
                    assert forall|i: int, j: int| start.has(i, j) implies #[trigger] self.at(i, j)
                        == start.shown(i, j, j < y || j == y && i < x + 1) by {
                        assert(before.has(i, j));
                    }
                }
            }
        }
    }

    /// A cell, made visible if it is a mine and its turn has come.
    spec fn shown(self, x: int, y: int, turn: bool) -> Cell {
        if turn && self.mine_at(x, y) {
            Cell { state: CellState::Visible, content: self.at(x, y).content }
        } else {
            self.at(x, y)
        }
    }

    /// Declares the game won once every cell without a mine is visible.
    fn check_win(&mut self)
        requires
            old(self).wf(),
        ensures
            final(self).wf(),
            final(self).same_frame(*old(self)),
            final(self).grid == old(self).grid,
            final(self).mines_generated == old(self).mines_generated,
            final(self).state == if old(self).cleared() {
                GameState::Won
            } else {
                old(self).state
            },
    {
        let ghost start = *self;
        let mut open: bool = false;
        for y in 0..self.height
            invariant
                self.wf(),
                *self == start,
                !open ==> forall|i: int, j: int|
                    start.has(i, j) && j < y && !start.mine_at(i, j) ==> (#[trigger] start.at(
                        i,
                        j,
                    )).state == CellState::Visible,
                open ==> !start.cleared(),
        {
            for x in 0..self.width
                invariant
                    self.wf(),
                    y < self.height,
                    *self == start,
                    !open ==> forall|i: int, j: int|
                        start.has(i, j) && (j < y || j == y && i < x) && !start.mine_at(i, j)
                            ==> (#[trigger] start.at(i, j)).state == CellState::Visible,
                    open ==> !start.cleared(),
            {
                if !self.is_mine(x, y) && self.grid[y][x].state != CellState::Visible {
                    assert(start.at(x as int, y as int).state != CellState::Visible);
                    open = true;
                }
            }
        }
        if !open {
            self.state = GameState::Won;
        }
    }

    /// Uncovers a cell once the mines are placed.
    fn uncover(&mut self, x: usize, y: usize)
        requires
            old(self).wf(),
            old(self).has(x as int, y as int),
        ensures
            final(self).wf(),
            old(self).uncovered(x as int, y as int, *final(self)),
    {
        let ghost start = *self;
        if self.grid[y][x].state != CellState::Hidden {
            return ;
        }
        if self.is_mine(x, y) {
            self.state = GameState::Lost;
            let ghost lost = *self;
            self.reveal_all_mines();
            proof {
                assert forall|i: int, j: int| start.has(i, j) implies {
                    &&& (#[trigger] self.at(i, j)).content == start.at(i, j).content
                    &&& self.at(i, j).state == if start.mine_at(i, j) {
                        CellState::Visible
                    } else {
                        start.at(i, j).state
                    }
                } by {
                    assert(lost.has(i, j) && lost.at(i, j) == start.at(i, j));
                }
            }
            return ;
        }
        self.open_area(x, y);
        let ghost opened = *self;
        self.check_win();
        proof {
            assert forall|i: int, j: int| start.has(i, j) implies #[trigger] self.at(i, j)
                == opened.at(i, j) by {}
            assert(self.cleared() == opened.cleared()) by {
                if self.cleared() {
                    assert forall|i: int, j: int|
                        opened.has(i, j) && !opened.mine_at(i, j) implies (#[trigger] opened.at(
                        i,
                        j,
                    )).state == CellState::Visible by {
                        assert(self.has(i, j) && !self.mine_at(i, j));
                        assert(self.at(i, j).state == CellState::Visible);
                    }
                }
                if opened.cleared() {
                    assert forall|i: int, j: int|
                        self.has(i, j) && !self.mine_at(i, j) implies (#[trigger] self.at(
                        i,
                        j,
                    )).state == CellState::Visible by {
                        assert(opened.has(i, j) && !opened.mine_at(i, j));
                        assert(opened.at(i, j).state == CellState::Visible);
                    }
                }
            }
        }
    }

    /// Reveals a cell.
    ///
    /// Nothing happens once the game is over. On the first reveal the mines are
    /// placed, none of them on the cell itself. A cell that is flagged or visible
    /// already stays as it is; a mine loses the game and shows all mines; any other
    /// cell is opened, with its surroundings where no mine is near, and the game is
    /// won once only mines are left.
    pub fn reveal_cell(&mut self, x: usize, y: usize)
        requires
            old(self).wf(),
            old(self).state == GameState::Playing ==> {
                &&& old(self).has(x as int, y as int)
                &&& !old(self).mines_generated ==> old(self).mines_count <= old(self).free_cells(
                    x as int,
                    y as int,
                ).len()
            },
        ensures
            final(self).wf(),
            old(self).state != GameState::Playing ==> *final(self) == *old(self),
            old(self).state == GameState::Playing && old(self).mines_generated ==> old(self).uncovered(x as int, y as int, *final(self)),
            old(self).state == GameState::Playing && !old(self).mines_generated ==> exists|
                picks: Seq<usize>,
                placed: Minesweeper,
            |
                {
                    &&& picks.len() == old(self).mines_count
                    &&& old(self).valid_picks(x as int, y as int, picks)
                    &&& chance::rolled(
                        picks,
                        old(self).free_cells(x as int, y as int).len(),
                    )
                    &&& #[trigger] old(self).dealt(x as int, y as int, picks, placed)
                    &&& placed.uncovered(x as int, y as int, *final(self))
                },
            old(self).state == GameState::Playing && !old(self).mines_generated && !old(self).mine_at(x as int, y as int) ==> final(self).state != GameState::Lost,
    {
        let ghost start = *self;
        if self.state != GameState::Playing {
            return ;
        }
        let mut dice = Dice::new();
        if !self.mines_generated {
            self.generate_mines(x, y, &mut dice);
        }
        let ghost placed = *self;
        self.uncover(x, y);
        proof {
            if !start.mines_generated {
                let picks = choose|picks: Seq<usize>|
                    picks.len() == start.mines_count && start.valid_picks(x as int, y as int, picks)
                        && #[trigger] start.dealt(x as int, y as int, picks, placed)
                        && dice.rolls() == Seq::<chance::Roll>::empty() + chance::rolls_of(
                        picks,
                        start.free_cells(x as int, y as int).len(),
                    );
                assert(dice.rolls() =~= chance::rolls_of(
                    picks,
                    start.free_cells(x as int, y as int).len(),
                ));
                assert(chance::rolled(picks, start.free_cells(x as int, y as int).len()));
                assert(start.dealt(x as int, y as int, picks, placed) && placed.uncovered(
                    x as int,
                    y as int,
                    *self,
                ));
                let free = start.free_cells(x as int, y as int);
                lemma_scan(start.free_test(x as int, y as int), start.width, start.height);
                lemma_drawn(free, picks, picks.len() as int);
                assert(!start.mined_by(x as int, y as int, picks).contains((x, y))) by {
                    let mined = start.mined_by(x as int, y as int, picks);
                    if mined.contains((x, y)) {
                        let k = choose|k: int| 0 <= k < mined.len() && mined[k] == (x, y);
                        assert(free.contains(mined[k]));
                        let f = choose|f: int| 0 <= f < free.len() && free[f] == (x, y);
                        assert(start.free_test(x as int, y as int)(
                            free[f].0 as int,
                            free[f].1 as int,
                        ));
                    }
                }
                assert(placed.at(x as int, y as int).content == CellContent::Mine
                    <==> start.mine_at(x as int, y as int));
            }
        }
    }

    /// Whether `after` is this game once the flag at `(x, y)` is toggled.
    pub open spec fn flag_toggled(self, x: int, y: int, after: Minesweeper) -> bool {
        &&& after.same_frame(self)
        &&& after.state == self.state
        &&& after.mines_generated == self.mines_generated
        &&& after.same_contents(self)
        &&& forall|i: int, j: int|
            self.has(i, j) ==> (#[trigger] after.at(i, j)).state == if i == x && j == y
                && self.at(i, j).state == CellState::Hidden {
                CellState::Flagged
            } else if i == x && j == y && self.at(i, j).state == CellState::Flagged {
                CellState::Hidden
            } else {
                self.at(i, j).state
            }
    }

    /// Puts a flag on a hidden cell, or takes it off. Nothing happens to a visible
    /// cell, nor once the game is over.
    pub fn toggle_flag(&mut self, x: usize, y: usize)
        requires
            old(self).wf(),
            old(self).state == GameState::Playing ==> old(self).has(x as int, y as int),
        ensures
            final(self).wf(),
            old(self).state != GameState::Playing ==> *final(self) == *old(self),
            old(self).state == GameState::Playing ==> old(self).flag_toggled(
                x as int,
                y as int,
                *final(self),
            ),
    {
        if self.state != GameState::Playing {
            return ;
        }
        match self.grid[y][x].state {
            CellState::Hidden => self.set_state(x, y, CellState::Flagged),
            CellState::Flagged => self.set_state(x, y, CellState::Hidden),
            CellState::Visible => {},
        }
    }
}

/// A position that was hidden and has become visible.
spec fn newly(start: Minesweeper, now: Minesweeper, p: (int, int)) -> bool {
    start.hidden_at(p) && now.at(p.0, p.1).state == CellState::Visible
}

/// No cell that touches a position is hidden.
spec fn settled(now: Minesweeper, p: (int, int)) -> bool {
    forall|q: (int, int)| adjacent(p, q) ==> !#[trigger] now.hidden_at(q)
}

/// A chain goes on from an opened cell with nothing around it.
proof fn lemma_opened_next(start: Minesweeper, from: (int, int), c: (int, int), n: (int, int))
    requires
        start.opened(from.0, from.1).contains(c),
        start.at(c.0, c.1).content == CellContent::Empty(0),
        adjacent(c, n),
        start.hidden_at(n),
    ensures
        start.opened(from.0, from.1).contains(n),
{
    let path = choose|path: Seq<(int, int)>| #[trigger]
        start.opening_path(path) && path[0] == (from.0, from.1) && path.last() == c;
    let longer = path.push(n);
    assert(start.opening_path(longer)) by {
        assert forall|i: int| 0 <= i < longer.len() implies start.hidden_at(
            #[trigger] longer[i],
        ) by {
            if i < path.len() {
                assert(longer[i] == path[i]);
            }
        }
        assert forall|i: int|
            #![trigger longer[i]]
            0 <= i < longer.len() - 1 implies start.at(longer[i].0, longer[i].1).content
            == CellContent::Empty(0) && adjacent(longer[i], longer[i + 1]) by {
            assert(longer[i] == path[i]);
            if i < path.len() - 1 {
                assert(longer[i + 1] == path[i + 1]);
            }
        }
    }
    assert(longer[0] == path[0] && longer.last() == n);
}

/// Where every opened cell with nothing around it is settled, a chain is open to its end.
proof fn lemma_path_opened(
    start: Minesweeper,
    now: Minesweeper,
    from: (int, int),
    path: Seq<(int, int)>,
    i: int,
)
    requires
        start.opening_path(path),
        path[0] == from,
        0 <= i < path.len(),
        newly(start, now, from),
        now.flooded(start, from),
        forall|p: (int, int)| #[trigger]
            newly(start, now, p) && start.at(p.0, p.1).content == CellContent::Empty(0) ==> settled(
                now,
                p,
            ),
    ensures
        newly(start, now, path[i]),
    decreases i,
{
    if i > 0 {
        lemma_path_opened(start, now, from, path, i - 1);
        let a = path[i - 1];
        let b = path[i];
        assert(adjacent(a, b));
        assert(settled(now, a));
        assert(start.hidden_at(b));
        assert(!now.hidden_at(b));
        assert(now.at(b.0, b.1).state == CellState::Visible);
    }
}

/// A board has finitely many cells.
proof fn lemma_spots_finite(width: nat, height: nat)
    ensures
        Set::new(|p: (int, int)| on_board(p.0, p.1, width as int, height as int)).finite(),
    decreases height,
{
    let all = Set::new(|p: (int, int)| on_board(p.0, p.1, width as int, height as int));
    if height == 0 {
        assert(all =~= Set::<(int, int)>::empty());
    } else {
        let above = Set::new(|p: (int, int)| on_board(p.0, p.1, width as int, height - 1));
        lemma_spots_finite(width, (height - 1) as nat);
        lemma_row_finite(width, height - 1);
        let row = Set::new(|p: (int, int)| 0 <= p.0 < width && p.1 == height - 1);
        assert(all =~= above.union(row));
    }
}

proof fn lemma_row_finite(width: nat, y: int)
    ensures
        Set::new(|p: (int, int)| 0 <= p.0 < width && p.1 == y).finite(),
    decreases width,
{
    let row = Set::new(|p: (int, int)| 0 <= p.0 < width && p.1 == y);
    if width == 0 {
        assert(row =~= Set::<(int, int)>::empty());
    } else {
        lemma_row_finite((width - 1) as nat, y);
        let rest = Set::new(|p: (int, int)| 0 <= p.0 < width - 1 && p.1 == y);
        assert(row =~= rest.insert((width - 1, y)));
    }
}

pub proof fn lemma_hidden_finite(game: Minesweeper)
    ensures
        game.hidden_spots().finite(),
{
    lemma_spots_finite(game.width as nat, game.height as nat);
    let all = Set::new(
        |p: (int, int)| on_board(p.0, p.1, game.width as int, game.height as int),
    );
    lemma_set_subset_finite(all, game.hidden_spots());
}

/// The cells still free after `k` draws. A drawn cell's place is taken by the last one.
pub open spec fn left_after(free: Seq<(usize, usize)>, picks: Seq<usize>, k: int) -> Seq<
    (usize, usize),
>
    decreases k,
{
    if k <= 0 {
        free
    } else {
        let left = left_after(free, picks, k - 1);
        left.update(picks[k - 1] as int, left.last()).drop_last()
    }
}

/// The cells drawn by the first `k` draws, in order.
pub open spec fn drawn(free: Seq<(usize, usize)>, picks: Seq<usize>, k: int) -> Seq<(usize, usize)>
    decreases k,
{
    if k <= 0 {
        Seq::empty()
    } else {
        drawn(free, picks, k - 1).push(left_after(free, picks, k - 1)[picks[k - 1] as int])
    }
}

/// Draws take distinct cells out of the free ones.
pub proof fn lemma_drawn(free: Seq<(usize, usize)>, picks: Seq<usize>, k: int)
    requires
        row_major(free),
        0 <= k <= picks.len() <= free.len(),
        forall|i: int| 0 <= i < picks.len() ==> #[trigger] picks[i] < free.len() - i,
    ensures
        left_after(free, picks, k).len() == free.len() - k,
        drawn(free, picks, k).len() == k,
        left_after(free, picks, k).no_duplicates(),
        drawn(free, picks, k).no_duplicates(),
        forall|i: int|
            0 <= i < free.len() - k ==> free.contains(#[trigger] left_after(free, picks, k)[i]),
        forall|i: int| 0 <= i < k ==> free.contains(#[trigger] drawn(free, picks, k)[i]),
        forall|i: int, j: int|
            0 <= i < free.len() - k && 0 <= j < k ==> #[trigger] left_after(free, picks, k)[i]
                != #[trigger] drawn(free, picks, k)[j],
    decreases k,
{
    if k <= 0 {
        assert forall|i: int, j: int| 0 <= i < free.len() && 0 <= j < free.len() && i != j implies free[i]
            != free[j] by {
            if i < j {
                assert(earlier(free[i], free[j]));
            } else {
                assert(earlier(free[j], free[i]));
            }
        }
    } else {
        lemma_drawn(free, picks, k - 1);
        let left = left_after(free, picks, k - 1);
        let taken = drawn(free, picks, k - 1);
        let at = picks[k - 1] as int;
        let now_left = left_after(free, picks, k);
        let now_taken = drawn(free, picks, k);
        assert(at < left.len());
        assert(now_left =~= left.update(at, left.last()).drop_last());
        assert forall|i: int| 0 <= i < now_left.len() implies #[trigger] now_left[i] == if i == at {
            left[left.len() - 1]
        } else {
            left[i]
        } by {}
        assert forall|i: int, j: int|
            0 <= i < now_left.len() && 0 <= j < k implies #[trigger] now_left[i]
            != #[trigger] now_taken[j] by {
            if j < k - 1 {
                assert(now_taken[j] == taken[j]);
            } else {
                assert(now_taken[j] == left[at]);
            }
        }
        assert(now_taken.no_duplicates()) by {
            assert forall|i: int, j: int|
                0 <= i < now_taken.len() && 0 <= j < now_taken.len() && i != j implies now_taken[i]
                != now_taken[j] by {
                if i < k - 1 {
                    assert(now_taken[i] == taken[i]);
                }
                if j < k - 1 {
                    assert(now_taken[j] == taken[j]);
                }
            }
        }
        assert forall|i: int| 0 <= i < k implies free.contains(#[trigger] now_taken[i]) by {
            if i < k - 1 {
                assert(now_taken[i] == taken[i]);
            }
        }
    }
}

/// The number of mines listed depends only on where the mines are.
pub proof fn lemma_mines_in_same(a: Minesweeper, b: Minesweeper, cells: Seq<(usize, usize)>)
    requires
        forall|i: int|
            0 <= i < cells.len() ==> a.mine_at(
                (#[trigger] cells[i]).0 as int,
                cells[i].1 as int,
            ) == b.mine_at(cells[i].0 as int, cells[i].1 as int),
    ensures
        a.mines_in(cells) == b.mines_in(cells),
    decreases cells.len(),
{
    if cells.len() > 0 {
        let rest = cells.drop_last();
        assert forall|i: int| 0 <= i < rest.len() implies a.mine_at(
            (#[trigger] rest[i]).0 as int,
            rest[i].1 as int,
        ) == b.mine_at(rest[i].0 as int, rest[i].1 as int) by {
            assert(rest[i] == cells[i]);
        }
        lemma_mines_in_same(a, b, rest);
        assert(cells.last() == cells[cells.len() - 1]);
    }
}

/// Draws a number below `n` from `rand`'s thread-local generator, by
/// `rand::Rng::gen_range` on the range `0..n`. Any number in the range may come
/// back, so nothing more is said of it.
#[verifier::external_body]
pub(crate) fn random_below(n: usize) -> (draw: usize)
    requires
        n > 0,
    ensures
        draw < n,
{
    rand::thread_rng().gen_range(0..n)
}

// ---------------------------------------------------------------------------
// The board as text
// ---------------------------------------------------------------------------

/// How a cell is written: a character, or a number, and a space.
pub open spec fn cell_text(cell: Cell) -> Seq<char> {
    match cell.state {
        CellState::Hidden => seq!['.', ' '],
        CellState::Flagged => seq!['F', ' '],
        CellState::Visible => match cell.content {
            CellContent::Mine => seq!['*', ' '],
            CellContent::Empty(n) => if n == 0 {
                seq![' ', ' ']
            } else {
                text::decimal(n as nat).push(' ')
            },
        },
    }
}

/// The first `x` cells of a row as text.
pub open spec fn row_text(row: Seq<Cell>, x: int) -> Seq<char>
    decreases x,
{
    if x <= 0 {
        Seq::empty()
    } else {
        row_text(row, x - 1) + cell_text(row[x - 1])
    }
}

/// The first `y` rows of a grid as text, one line each.
pub open spec fn grid_text(grid: Seq<Vec<Cell>>, y: int) -> Seq<char>
    decreases y,
{
    if y <= 0 {
        Seq::empty()
    } else {
        grid_text(grid, y - 1) + row_text(grid[y - 1]@, grid[y - 1]@.len() as int).push('\n')
    }
}

/// Appends a cell as text.
fn append_cell(out: &mut String, cell: &Cell)
    ensures
        final(out)@ == old(out)@ + cell_text(*cell),
{
    let ghost before = out@;
    proof {
        reveal_strlit(". ");
        reveal_strlit("F ");
        reveal_strlit("* ");
        reveal_strlit("  ");
        reveal_strlit(" ");
    }
    match cell.state {
        CellState::Hidden => text::append_text(out, ". "),
        CellState::Flagged => text::append_text(out, "F "),
        CellState::Visible => match cell.content {
            CellContent::Mine => text::append_text(out, "* "),
            CellContent::Empty(n) => {
                if n == 0 {
                    text::append_text(out, "  ");
                } else {
                    text::append_decimal(out, n as u64);
                    text::append_text(out, " ");
                }
            },
        },
    }
    assert(out@ =~= before + cell_text(*cell));
}

impl Minesweeper {
    /// The board as text: a line for each row.
    pub fn to_string(&self) -> (out: String)
        ensures
            out@ == grid_text(self.grid@, self.grid@.len() as int),
    {
        let mut out: String = String::new();
        proof {
            reveal_strlit("\n");
        }
        for y in 0..self.grid.len()
            invariant
                out@ == grid_text(self.grid@, y as int),
                "\n"@ =~= seq!['\n'],
        {
            let ghost above = out@;
            let row: &Vec<Cell> = &self.grid[y];
            for x in 0..row.len()
                invariant
                    out@ == above + row_text(row@, x as int),
            {
                append_cell(&mut out, &row[x]);
                assert(out@ =~= above + row_text(row@, x + 1));
            }
            text::append_text(&mut out, "\n");
            assert(out@ =~= grid_text(self.grid@, y + 1));
        }
        out
    }
}

// ---------------------------------------------------------------------------
// Laws
// ---------------------------------------------------------------------------

/// The cell clicked first never gets a mine, whatever is drawn.
pub proof fn law_first_click_is_safe(
    before: Minesweeper,
    x: int,
    y: int,
    picks: Seq<usize>,
    after: Minesweeper,
)
    requires
        before.has(x, y),
        before.valid_picks(x, y, picks),
        before.dealt(x, y, picks, after),
    ensures
        after.mine_at(x, y) <==> before.mine_at(x, y),
{
    let free = before.free_cells(x, y);
    let mined = before.mined_by(x, y, picks);
    lemma_scan(before.free_test(x, y), before.width, before.height);
    lemma_drawn(free, picks, picks.len() as int);
    let here = (x as usize, y as usize);
    if mined.contains(here) {
        let k = choose|k: int| 0 <= k < mined.len() && mined[k] == here;
        assert(free.contains(mined[k]));
        let f = choose|f: int| 0 <= f < free.len() && free[f] == here;
        assert(before.free_test(x, y)(free[f].0 as int, free[f].1 as int));
    }
    assert(after.at(x, y).content == CellContent::Mine <==> before.mine_at(x, y));
}

/// What is left after some draws depends on these alone.
proof fn lemma_left_prefix(free: Seq<(usize, usize)>, a: Seq<usize>, b: Seq<usize>, k: int)
    requires
        k <= a.len(),
        k <= b.len(),
        forall|i: int| 0 <= i < k ==> #[trigger] a[i] == b[i],
    ensures
        left_after(free, a, k) == left_after(free, b, k),
        drawn(free, a, k) == drawn(free, b, k),
    decreases k,
{
    if k > 0 {
        lemma_left_prefix(free, a, b, k - 1);
        assert(a[k - 1] == b[k - 1]);
    }
}

/// What is free is either left or drawn.
proof fn lemma_left_or_drawn(free: Seq<(usize, usize)>, picks: Seq<usize>, k: int)
    requires
        row_major(free),
        0 <= k <= picks.len() <= free.len(),
        forall|i: int| 0 <= i < picks.len() ==> #[trigger] picks[i] < free.len() - i,
    ensures
        forall|c: (usize, usize)| #[trigger]
            left_after(free, picks, k).contains(c) <==> free.contains(c) && !drawn(
                free,
                picks,
                k,
            ).contains(c),
    decreases k,
{
    let left = left_after(free, picks, k);
    let taken = drawn(free, picks, k);
    lemma_drawn(free, picks, k);
    if k > 0 {
        lemma_drawn(free, picks, k - 1);
        lemma_left_or_drawn(free, picks, k - 1);
        let before = left_after(free, picks, k - 1);
        let fewer = drawn(free, picks, k - 1);
        let at = picks[k - 1] as int;
        assert forall|c: (usize, usize)| free.contains(c) && !taken.contains(c) implies
            #[trigger] left.contains(c) by {
            if fewer.contains(c) {
                let i = choose|i: int| 0 <= i < fewer.len() && fewer[i] == c;
                assert(taken[i] == c);
            }
            assert(before.contains(c));
            let j = choose|j: int| 0 <= j < before.len() && before[j] == c;
            assert(taken[k - 1] == before[at]);
            assert(j != at);
            if j == before.len() - 1 {
                assert(left[at] == c);
            } else {
                assert(left[j] == c);
            }
        }
    }
    assert forall|c: (usize, usize)| #[trigger] left.contains(c) implies free.contains(c)
        && !taken.contains(c) by {
        let i = choose|i: int| 0 <= i < left.len() && left[i] == c;
        assert(free.contains(left[i]));
        if taken.contains(c) {
            let j = choose|j: int| 0 <= j < taken.len() && taken[j] == c;
            assert(left[i] != taken[j]);
        }
    }
}

/// The draws that put mines on just these cells.
pub open spec fn deals_of(
    game: Minesweeper,
    x: int,
    y: int,
    mines: Set<(usize, usize)>,
) -> Set<Seq<usize>> {
    Set::new(
        |picks: Seq<usize>|
            picks.len() == mines.len() && game.valid_picks(x, y, picks) && game.mined_by(
                x,
                y,
                picks,
            ).to_set() == mines,
    )
}

/// Every deal is equally likely. Whichever cells are asked for, other than the one clicked
/// on and those that are mines already, equally many draws put the mines just there, as
/// many as there are orders to put them down in. The `i`-th draw is below the number of
/// cells that are free then.
pub proof fn law_every_deal_is_equally_likely(
    game: Minesweeper,
    x: int,
    y: int,
    mines: Set<(usize, usize)>,
)
    requires
        game.free_cells(x, y).len() <= usize::MAX,
        mines.finite(),
        mines.len() <= game.free_cells(x, y).len(),
        forall|c: (usize, usize)| #[trigger]
            mines.contains(c) ==> game.has(c.0 as int, c.1 as int) && !game.mine_at(
                c.0 as int,
                c.1 as int,
            ) && spot(c) != (x, y),
    ensures
        deals_of(game, x, y, mines).finite(),
        deals_of(game, x, y, mines).len() == chance::factorial(mines.len()),
        forall|picks: Seq<usize>, i: int|
            0 <= i < picks.len() ==> (#[trigger] chance::rolls_of(
                picks,
                game.free_cells(x, y).len(),
            )[i]).value == picks[i] && chance::rolls_of(
                picks,
                game.free_cells(x, y).len(),
            )[i].below == (game.free_cells(x, y).len() - i) as nat,
        forall|picks: Seq<usize>, after: Minesweeper, c: (usize, usize)|
            deals_of(game, x, y, mines).contains(picks) && #[trigger] game.dealt(
                x,
                y,
                picks,
                after,
            ) && game.has(c.0 as int, c.1 as int) ==> ((#[trigger] after.at(
                c.0 as int,
                c.1 as int,
            )).content == CellContent::Mine <==> game.mine_at(c.0 as int, c.1 as int)
                || mines.contains(c)),
{
    let free = game.free_cells(x, y);
    let n = free.len();
    let left = |q: Seq<usize>| left_after(free, q, q.len() as int);
    let taken = |q: Seq<usize>| drawn(free, q, q.len() as int).to_set();
    let all = free.to_set();
    lemma_scan(game.free_test(x, y), game.width, game.height);
    assert(chance::takes_out(left, taken, all, n)) by {
        assert(taken(Seq::empty()) =~= Set::empty());
        assert forall|q: Seq<usize>| #[trigger] chance::in_range(q, n) implies {
            &&& left(q).len() == n - q.len()
            &&& left(q).no_duplicates()
            &&& forall|c: (usize, usize)| #[trigger]
                left(q).contains(c) <==> all.contains(c) && !taken(q).contains(c)
        } by {
            lemma_drawn(free, q, q.len() as int);
            lemma_left_or_drawn(free, q, q.len() as int);
            assert forall|c: (usize, usize)| #[trigger] left(q).contains(c) <==> all.contains(c)
                && !taken(q).contains(c) by {
                assert(left_after(free, q, q.len() as int).contains(c) <==> free.contains(c)
                    && !drawn(free, q, q.len() as int).contains(c));
            }
        }
        assert forall|q: Seq<usize>, r: usize| #[trigger]
            chance::in_range(q.push(r), n) implies taken(q.push(r)) == taken(q).insert(
            left(q)[r as int],
        ) by {
            let more = q.push(r);
            lemma_left_prefix(free, q, more, q.len() as int);
            let now = drawn(free, more, more.len() as int);
            let was = drawn(free, q, q.len() as int);
            let c = left(q)[r as int];
            assert(now == was.push(c));
            assert forall|d: (usize, usize)| #[trigger] taken(more).contains(d) <==> taken(q).insert(
                c,
            ).contains(d) by {
                if was.contains(d) {
                    let i = choose|i: int| 0 <= i < was.len() && was[i] == d;
                    assert(now[i] == d);
                }
                assert(now[was.len() as int] == c);
                if now.contains(d) {
                    let i = choose|i: int| 0 <= i < now.len() && now[i] == d;
                    if i < was.len() {
                        assert(was[i] == d);
                    }
                }
            }
            assert(taken(more) =~= taken(q).insert(c));
        }
    }
    assert forall|c: (usize, usize)| mines.contains(c) implies all.contains(c) by {
        assert(game.free_test(x, y)(c.0 as int, c.1 as int));
        assert(free.contains(c));
    }
    chance::law_every_choice_is_equally_likely(left, taken, all, n, mines);
    assert(deals_of(game, x, y, mines) =~= chance::draws_taking(taken, n, mines.len(), mines)) by {
        assert forall|q: Seq<usize>|
            game.valid_picks(x, y, q) <==> #[trigger] chance::in_range(q, n) by {}
    }
    assert forall|picks: Seq<usize>, after: Minesweeper, c: (usize, usize)|
        deals_of(game, x, y, mines).contains(picks) && #[trigger] game.dealt(
            x,
            y,
            picks,
            after,
        ) && game.has(c.0 as int, c.1 as int) implies ((#[trigger] after.at(
        c.0 as int,
        c.1 as int,
    )).content == CellContent::Mine <==> game.mine_at(c.0 as int, c.1 as int)
        || mines.contains(c)) by {
        assert(game.mined_by(x, y, picks).to_set().contains(c) <==> game.mined_by(
            x,
            y,
            picks,
        ).contains(c));
    }
}

/// Each draw puts down exactly one more mine.
pub proof fn law_draws_count_mines(
    before: Minesweeper,
    x: int,
    y: int,
    picks: Seq<usize>,
    after: Minesweeper,
)
    requires
        before.valid_picks(x, y, picks),
        before.dealt(x, y, picks, after),
    ensures
        after.mine_spots().len() == before.mine_spots().len() + picks.len(),
        after.mine_spots().finite(),
{
    let free = before.free_cells(x, y);
    let mined = before.mined_by(x, y, picks);
    lemma_scan(before.free_test(x, y), before.width, before.height);
    lemma_drawn(free, picks, picks.len() as int);
    let spots = mined.map_values(|p: (usize, usize)| spot(p));
    assert(spots.no_duplicates()) by {
        assert forall|i: int, j: int|
            0 <= i < spots.len() && 0 <= j < spots.len() && i != j implies spots[i]
            != spots[j] by {
            assert(mined[i] != mined[j]);
        }
    }
    spots.unique_seq_to_set();
    lemma_spots_finite(before.width as nat, before.height as nat);
    let all = Set::new(
        |p: (int, int)| on_board(p.0, p.1, before.width as int, before.height as int),
    );
    lemma_set_subset_finite(all, before.mine_spots());
    lemma_set_subset_finite(all, after.mine_spots());
    assert forall|p: (int, int)| spots.to_set().contains(p) implies before.has(p.0, p.1)
        && !before.mine_at(p.0, p.1) && mined.contains((p.0 as usize, p.1 as usize)) by {
        let i = choose|i: int| 0 <= i < spots.len() && spots[i] == p;
        assert(free.contains(mined[i]));
        let f = choose|f: int| 0 <= f < free.len() && free[f] == mined[i];
        assert(before.free_test(x, y)(free[f].0 as int, free[f].1 as int));
        assert(mined[i] == (p.0 as usize, p.1 as usize));
    }
    assert(after.mine_spots() =~= before.mine_spots().union(spots.to_set())) by {
        assert forall|p: (int, int)|
            after.mine_spots().contains(p) <==> before.mine_spots().union(
                spots.to_set(),
            ).contains(p) by {
            if before.has(p.0, p.1) {
                assert(after.at(p.0, p.1).content == CellContent::Mine <==> (before.mine_at(
                    p.0,
                    p.1,
                ) || mined.contains((p.0 as usize, p.1 as usize))));
                if mined.contains((p.0 as usize, p.1 as usize)) {
                    let i = choose|i: int|
                        0 <= i < mined.len() && mined[i] == (p.0 as usize, p.1 as usize);
                    assert(spots[i] == p);
                    assert(spots.contains(p));
                }
            }
        }
    }
    assert(before.mine_spots().disjoint(spots.to_set()));
    lemma_set_disjoint_lens(before.mine_spots(), spots.to_set());
}

/// Only uncovering a hidden mine loses a game.
pub proof fn law_only_a_mine_loses(before: Minesweeper, x: int, y: int, after: Minesweeper)
    requires
        before.state == GameState::Playing,
        before.uncovered(x, y, after),
    ensures
        after.state == GameState::Lost <==> before.at(x, y).state == CellState::Hidden
            && before.mine_at(x, y),
{
}

/// A move that does not lose leaves every flag in place.
pub proof fn law_flags_stay(
    before: Minesweeper,
    x: int,
    y: int,
    after: Minesweeper,
    i: int,
    j: int,
)
    requires
        before.state == GameState::Playing,
        before.uncovered(x, y, after),
        after.state != GameState::Lost,
        before.has(i, j),
        before.at(i, j).state == CellState::Flagged,
    ensures
        after.at(i, j).state == CellState::Flagged,
{
    if before.opened(x, y).contains((i, j)) {
        let path = choose|path: Seq<(int, int)>| #[trigger]
            before.opening_path(path) && path[0] == (x, y) && path.last() == (i, j);
        assert(before.hidden_at(path[path.len() - 1]));
    }
}

/// On a board whose numbers are right, opening a cell that is not a mine never
/// shows a mine.
pub proof fn law_opening_shows_no_mine(
    before: Minesweeper,
    x: int,
    y: int,
    after: Minesweeper,
    i: int,
    j: int,
)
    requires
        before.numbered(),
        before.uncovered(x, y, after),
        before.has(x, y),
        !before.mine_at(x, y),
        before.has(i, j),
        before.mine_at(i, j),
    ensures
        after.at(i, j).state == before.at(i, j).state,
{
    if before.at(x, y).state == CellState::Hidden && before.opened(x, y).contains((i, j)) {
        let path = choose|path: Seq<(int, int)>| #[trigger]
            before.opening_path(path) && path[0] == (x, y) && path.last() == (i, j);
        let last = path.len() - 1;
        assert(last > 0);
        let a = path[last - 1];
        assert(before.hidden_at(a));
        assert(adjacent(a, path[last - 1 + 1]));
        let list = before.around(a.0, a.1);
        lemma_neighbours(a.0, a.1, before.width, before.height);
        let p = (i as usize, j as usize);
        assert(spot(p) == (i, j));
        assert(list.contains(p));
        let k = choose|k: int| 0 <= k < list.len() && list[k] == p;
        lemma_mines_in_counts(before, list, k);
        lemma_mines_in_bound(before, list);
        assert(before.at(a.0, a.1).content == CellContent::Empty(0));
        assert(!before.mine_at(a.0, a.1));
        assert(before.at(a.0, a.1).content == CellContent::Empty(before.mines_in(list) as u8));
    }
}

proof fn lemma_mines_in_counts(game: Minesweeper, cells: Seq<(usize, usize)>, k: int)
    requires
        0 <= k < cells.len(),
        game.mine_at(cells[k].0 as int, cells[k].1 as int),
    ensures
        game.mines_in(cells) >= 1,
    decreases cells.len(),
{
    if k < cells.len() - 1 {
        assert(cells.drop_last()[k] == cells[k]);
        lemma_mines_in_counts(game, cells.drop_last(), k);
    }
}

/// No more mines are counted than cells are listed.
pub proof fn lemma_mines_in_bound(game: Minesweeper, cells: Seq<(usize, usize)>)
    ensures
        game.mines_in(cells) <= cells.len(),
    decreases cells.len(),
{
    if cells.len() > 0 {
        lemma_mines_in_bound(game, cells.drop_last());
    }
}

/// A won game has every cell without a mine open, and a game goes on as long as one
/// is left.
pub proof fn law_won_when_cleared(before: Minesweeper, x: int, y: int, after: Minesweeper)
    requires
        before.state == GameState::Playing,
        before.uncovered(x, y, after),
        before.at(x, y).state == CellState::Hidden,
        !before.mine_at(x, y),
    ensures
        after.state == GameState::Won <==> after.cleared(),
        after.state == GameState::Playing <==> !after.cleared(),
{
}

/// Toggling a flag twice changes nothing.
pub proof fn law_flag_twice(
    before: Minesweeper,
    x: int,
    y: int,
    middle: Minesweeper,
    after: Minesweeper,
)
    requires
        before.flag_toggled(x, y, middle),
        middle.flag_toggled(x, y, after),
    ensures
        after.same_frame(before),
        after.state == before.state,
        after.mines_generated == before.mines_generated,
        after.same_contents(before),
        after.same_states(before),
{
    assert forall|i: int, j: int| before.has(i, j) implies (#[trigger] after.at(i, j)).state
        == before.at(i, j).state && after.at(i, j).content == before.at(i, j).content by {
        assert(middle.has(i, j));
        assert(middle.at(i, j).content == before.at(i, j).content);
    }
}

/// Whether a cell was opened by a move.
pub open spec fn opens_up(before: Minesweeper, after: Minesweeper, p: (int, int)) -> bool {
    before.hidden_at(p) && after.at(p.0, p.1).state == CellState::Visible
}

/// What opening a cell opens: the cell; with each cell that has no mine around it all hidden
/// cells that touch it; and nothing that is not reached so.
pub proof fn law_opening_spreads_where_no_mine_is_near(
    before: Minesweeper,
    x: int,
    y: int,
    after: Minesweeper,
)
    requires
        before.uncovered(x, y, after),
        before.hidden_at((x, y)),
        !before.mine_at(x, y),
    ensures
        opens_up(before, after, (x, y)),
        forall|p: (int, int), q: (int, int)| #[trigger]
            opens_up(before, after, p) && before.at(p.0, p.1).content == CellContent::Empty(0)
                && adjacent(p, q) && #[trigger] before.hidden_at(q) ==> opens_up(before, after, q),
        forall|p: (int, int)| #[trigger]
            opens_up(before, after, p) && p != (x, y) ==> exists|q: (int, int)| #[trigger]
                opens_up(before, after, q) && before.at(q.0, q.1).content == CellContent::Empty(0)
                    && adjacent(q, p),
{
    assert forall|p: (int, int)| #[trigger] before.hidden_at(p) implies (opens_up(
        before,
        after,
        p,
    ) <==> before.opened(x, y).contains(p)) by {
        assert(before.has(p.0, p.1));
        assert((after.at(p.0, p.1)).state == if before.opened(x, y).contains((p.0, p.1)) {
            CellState::Visible
        } else {
            before.at(p.0, p.1).state
        });
        assert((p.0, p.1) == p);
    }
    let alone = seq![(x, y)];
    assert(before.opening_path(alone) && alone[0] == (x, y) && alone.last() == (x, y));
    assert(before.hidden_at((x, y)));
    assert(before.opened(x, y).contains((x, y)));
    assert forall|p: (int, int), q: (int, int)| #[trigger]
        opens_up(before, after, p) && before.at(p.0, p.1).content == CellContent::Empty(0)
            && adjacent(p, q) && #[trigger] before.hidden_at(q) implies opens_up(
        before,
        after,
        q,
    ) by {
        assert(before.opened(x, y).contains(p));
        let path = choose|path: Seq<(int, int)>| #[trigger]
            before.opening_path(path) && path[0] == (x, y) && path.last() == p;
        let more = path.push(q);
        assert(before.opening_path(more)) by {
            assert forall|i: int| 0 <= i < more.len() implies before.hidden_at(
                #[trigger] more[i],
            ) by {
                if i < path.len() {
                    assert(more[i] == path[i]);
                }
            }
            assert forall|i: int| #![trigger more[i]] 0 <= i < more.len() - 1 implies before.at(
                more[i].0,
                more[i].1,
            ).content == CellContent::Empty(0) && adjacent(more[i], more[i + 1]) by {
                assert(more[i] == path[i]);
                if i < path.len() - 1 {
                    assert(more[i + 1] == path[i + 1]);
                }
            }
        }
        assert(more[0] == (x, y) && more.last() == q);
        assert(before.opened(x, y).contains(q));
    }
    assert forall|p: (int, int)| #[trigger]
        opens_up(before, after, p) && p != (x, y) implies exists|q: (int, int)| #[trigger]
        opens_up(before, after, q) && before.at(q.0, q.1).content == CellContent::Empty(0)
            && adjacent(q, p) by {
        assert(before.opened(x, y).contains(p));
        let path = choose|path: Seq<(int, int)>| #[trigger]
            before.opening_path(path) && path[0] == (x, y) && path.last() == p;
        let last = path.len() - 1;
        assert(last > 0);
        let less = path.drop_last();
        let q = path[last - 1];
        assert(before.opening_path(less)) by {
            assert forall|i: int| 0 <= i < less.len() implies before.hidden_at(
                #[trigger] less[i],
            ) by {
                assert(less[i] == path[i]);
            }
            assert forall|i: int| #![trigger less[i]] 0 <= i < less.len() - 1 implies before.at(
                less[i].0,
                less[i].1,
            ).content == CellContent::Empty(0) && adjacent(less[i], less[i + 1]) by {
                assert(less[i] == path[i]);
                assert(less[i + 1] == path[i + 1]);
            }
        }
        assert(less[0] == (x, y) && less.last() == q);
        assert(before.opened(x, y).contains(q));
        assert(before.hidden_at(path[last - 1]));
        assert(adjacent(path[last - 1], path[last - 1 + 1]));
        assert(opens_up(before, after, q));
    }
}

/// Whatever holds of the cell that is opened, and is passed on by cells with no mine around
/// them to those that touch them, holds of all that is opened.
pub proof fn law_opening_reaches_nothing_else(
    before: Minesweeper,
    x: int,
    y: int,
    after: Minesweeper,
    held: Set<(int, int)>,
    p: (int, int),
)
    requires
        before.uncovered(x, y, after),
        before.hidden_at((x, y)),
        !before.mine_at(x, y),
        held.contains((x, y)),
        forall|a: (int, int), b: (int, int)| #[trigger]
            held.contains(a) && before.hidden_at(a) && before.at(a.0, a.1).content
                == CellContent::Empty(0) && adjacent(a, b) && #[trigger] before.hidden_at(b)
                ==> held.contains(b),
        opens_up(before, after, p),
    ensures
        held.contains(p),
{
    assert((after.at(p.0, p.1)).state == if before.opened(x, y).contains((p.0, p.1)) {
        CellState::Visible
    } else {
        before.at(p.0, p.1).state
    });
    assert((p.0, p.1) == p);
    let path = choose|path: Seq<(int, int)>| #[trigger]
        before.opening_path(path) && path[0] == (x, y) && path.last() == p;
    lemma_held_along(before, path, held, path.len() - 1);
}

proof fn lemma_held_along(
    before: Minesweeper,
    path: Seq<(int, int)>,
    held: Set<(int, int)>,
    i: int,
)
    requires
        before.opening_path(path),
        held.contains(path[0]),
        forall|a: (int, int), b: (int, int)| #[trigger]
            held.contains(a) && before.hidden_at(a) && before.at(a.0, a.1).content
                == CellContent::Empty(0) && adjacent(a, b) && #[trigger] before.hidden_at(b)
                ==> held.contains(b),
        0 <= i < path.len(),
    ensures
        held.contains(path[i]),
    decreases i,
{
    if i > 0 {
        lemma_held_along(before, path, held, i - 1);
        let a = path[i - 1];
        let b = path[i - 1 + 1];
        assert(before.hidden_at(path[i - 1]));
        assert(before.hidden_at(path[i]));
        assert(adjacent(a, b));
    }
}

/// The mines that touch a cell.
pub open spec fn mines_touching(game: Minesweeper, x: int, y: int) -> Set<(int, int)> {
    Set::new(|q: (int, int)| game.has(q.0, q.1) && adjacent((x, y), q) && game.mine_at(q.0, q.1))
}

/// The mines of a list, as a set.
proof fn lemma_mines_in_set(game: Minesweeper, cells: Seq<(usize, usize)>)
    requires
        row_major(cells),
    ensures
        ({
            let found = Set::new(
                |q: (int, int)|
                    game.mine_at(q.0, q.1) && exists|i: int|
                        0 <= i < cells.len() && spot(#[trigger] cells[i]) == q,
            );
            found.finite() && found.len() == game.mines_in(cells)
        }),
    decreases cells.len(),
{
    let found = Set::new(
        |q: (int, int)|
            game.mine_at(q.0, q.1) && exists|i: int|
                0 <= i < cells.len() && spot(#[trigger] cells[i]) == q,
    );
    if cells.len() == 0 {
        assert(found =~= Set::empty());
    } else {
        let rest = cells.drop_last();
        let last = spot(cells.last());
        assert forall|i: int, j: int| 0 <= i < j < rest.len() implies earlier(
            #[trigger] rest[i],
            #[trigger] rest[j],
        ) by {
            assert(earlier(cells[i], cells[j]));
        }
        lemma_mines_in_set(game, rest);
        let fewer = Set::new(
            |q: (int, int)|
                game.mine_at(q.0, q.1) && exists|i: int|
                    0 <= i < rest.len() && spot(#[trigger] rest[i]) == q,
        );
        assert(!fewer.contains(last)) by {
            if fewer.contains(last) {
                let i = choose|i: int| 0 <= i < rest.len() && spot(#[trigger] rest[i]) == last;
                assert(earlier(cells[i], cells[cells.len() - 1]));
            }
        }
        let now = if game.mine_at(last.0, last.1) {
            fewer.insert(last)
        } else {
            fewer
        };
        assert(found =~= now) by {
            assert forall|q: (int, int)| found.contains(q) <==> now.contains(q) by {
                if found.contains(q) {
                    let i = choose|i: int| 0 <= i < cells.len() && spot(#[trigger] cells[i]) == q;
                    if i < rest.len() {
                        assert(spot(rest[i]) == q);
                    }
                }
                if fewer.contains(q) {
                    let i = choose|i: int| 0 <= i < rest.len() && spot(#[trigger] rest[i]) == q;
                    assert(spot(cells[i]) == q);
                }
                if q == last && game.mine_at(last.0, last.1) {
                    assert(spot(cells[cells.len() - 1]) == q);
                }
            }
        }
    }
}

/// Where the numbers are filled in, each cell that is no mine holds how many mines touch it.
pub proof fn law_numbers_count_the_mines_around(game: Minesweeper, x: int, y: int)
    requires
        game.numbered(),
        game.has(x, y),
        !game.mine_at(x, y),
    ensures
        mines_touching(game, x, y).finite(),
        mines_touching(game, x, y).len() <= 8,
        game.at(x, y).content == CellContent::Empty(mines_touching(game, x, y).len() as u8),
{
    let list = game.around(x, y);
    lemma_neighbours(x, y, game.width, game.height);
    lemma_mines_in_set(game, list);
    lemma_mines_in_bound(game, list);
    let found = Set::new(
        |q: (int, int)|
            game.mine_at(q.0, q.1) && exists|i: int|
                0 <= i < list.len() && spot(#[trigger] list[i]) == q,
    );
    assert(found =~= mines_touching(game, x, y)) by {
        assert forall|q: (int, int)| found.contains(q) <==> mines_touching(game, x, y).contains(
            q,
        ) by {
            if found.contains(q) {
                let i = choose|i: int| 0 <= i < list.len() && spot(#[trigger] list[i]) == q;
                assert(list[i].0 < game.width && adjacent((x, y), spot(list[i])));
            }
            if mines_touching(game, x, y).contains(q) {
                let u = (q.0 as usize, q.1 as usize);
                assert(spot(u) == q);
                assert(list.contains(u));
                let i = choose|i: int| 0 <= i < list.len() && list[i] == u;
                assert(spot(list[i]) == q);
            }
        }
    }
}

/// A flag goes onto a hidden cell and comes off a flagged one. An open cell, and every other
/// cell, stays as it is, and so does what lies under all of them.
pub proof fn law_a_flag_goes_on_and_comes_off(
    before: Minesweeper,
    x: int,
    y: int,
    after: Minesweeper,
)
    requires
        before.has(x, y),
        before.flag_toggled(x, y, after),
    ensures
        before.at(x, y).state == CellState::Hidden <==> after.at(x, y).state == CellState::Flagged,
        before.at(x, y).state == CellState::Flagged <==> after.at(x, y).state == CellState::Hidden,
        before.at(x, y).state == CellState::Visible <==> after.at(x, y).state == CellState::Visible,
        forall|i: int, j: int|
            before.has(i, j) ==> (#[trigger] after.at(i, j)).content == before.at(i, j).content,
        forall|i: int, j: int|
            before.has(i, j) && (i, j) != (x, y) ==> (#[trigger] after.at(i, j)).state
                == before.at(i, j).state,
        after.state == before.state,
        after.mines_generated == before.mines_generated,
{
    assert(after.at(x, y).content == before.at(x, y).content);
}

/// Opening a mine loses and shows every mine. Opening another cell wins just where only
/// mines are left unopened then, and the game goes on otherwise.
pub proof fn law_the_game_ends_where_it_should(
    before: Minesweeper,
    x: int,
    y: int,
    after: Minesweeper,
)
    requires
        before.uncovered(x, y, after),
        before.hidden_at((x, y)),
        before.state == GameState::Playing,
    ensures
        before.mine_at(x, y) <==> after.state == GameState::Lost,
        before.mine_at(x, y) ==> forall|i: int, j: int|
            before.has(i, j) && before.mine_at(i, j) ==> (#[trigger] after.at(i, j)).state
                == CellState::Visible,
        !before.mine_at(x, y) ==> (after.state == GameState::Won <==> forall|i: int, j: int|
            before.has(i, j) && (#[trigger] after.at(i, j)).state != CellState::Visible
                ==> before.mine_at(i, j)),
        after.state == GameState::Won || after.state == GameState::Lost || after.state
            == GameState::Playing,
{
    if !before.mine_at(x, y) {
        if after.cleared() {
            assert forall|i: int, j: int|
                before.has(i, j) && (#[trigger] after.at(i, j)).state
                    != CellState::Visible implies before.mine_at(i, j) by {
                assert(after.at(i, j).content == before.at(i, j).content);
                assert(after.has(i, j));
            }
        }
        if forall|i: int, j: int|
            before.has(i, j) && (#[trigger] after.at(i, j)).state != CellState::Visible
                ==> before.mine_at(i, j) {
            assert forall|i: int, j: int| after.has(i, j) && !after.mine_at(i, j) implies (
            #[trigger] after.at(i, j)).state == CellState::Visible by {
                assert(before.has(i, j));
                assert(after.at(i, j).content == before.at(i, j).content);
            }
            assert(after.cleared());
        }
    }
}

/// Written out, a cell is a character for what the player sees of it, and a blank: a point
/// where it is hidden, and else a flag, a mine, the number or, for none, a blank.
pub proof fn law_cells_are_written_as_they_are_seen(cell: Cell)
    requires
        cell.content matches CellContent::Empty(n) ==> n <= 8,
    ensures
        cell_text(cell).len() == 2,
        cell_text(cell)[1] == ' ',
        cell.state == CellState::Hidden <==> cell_text(cell)[0] == '.',
        cell.state == CellState::Flagged <==> cell_text(cell)[0] == 'F',
        cell.state == CellState::Visible && cell.content == CellContent::Mine <==> cell_text(
            cell,
        )[0] == '*',
        cell.state == CellState::Visible && cell.content == CellContent::Empty(0) <==> cell_text(
            cell,
        )[0] == ' ',
        cell.state == CellState::Visible ==> (cell.content matches CellContent::Empty(n) ==> n > 0
            ==> cell_text(cell)[0] as int - '0' as int == n),
{
    match cell.content {
        CellContent::Empty(n) => {
            if n > 0 {
                assert(text::decimal(n as nat) =~= seq![text::digit_char(n as int)]);
            }
        },
        CellContent::Mine => {},
    }
}

/// Written out, a row is its cells one after the other, and a board is its rows, a line each.
pub proof fn law_rows_are_written_cell_by_cell(row: Seq<Cell>, upto: int, x: int)
    requires
        0 <= x < upto <= row.len(),
        forall|i: int|
            0 <= i < row.len() ==> ((#[trigger] row[i]).content matches CellContent::Empty(n) ==> n
                <= 8),
    ensures
        row_text(row, upto).len() == 2 * upto,
        row_text(row, upto)[2 * x] == cell_text(row[x])[0],
    decreases upto,
{
    assert(row[upto - 1] == row[upto - 1]);
    law_cells_are_written_as_they_are_seen(row[upto - 1]);
    if upto == 1 {
        assert(row_text(row, 0) =~= Seq::empty());
    } else if x < upto - 1 {
        law_rows_are_written_cell_by_cell(row, upto - 1, x);
    } else {
        law_rows_are_written_cell_by_cell(row, upto - 1, 0);
    }
}

/// What is dealt was rolled: behind the draws of a deal stand dice that rolled just these, one
/// for each mine, the `i`-th below the number of cells that were free then.
pub proof fn law_what_is_dealt_was_rolled(picks: Seq<usize>, n: nat)
    requires
        chance::rolled(picks, n),
        picks.len() <= n,
    ensures
        exists|dice: Dice|
            {
                &&& (#[trigger] dice.rolls()).len() == picks.len()
                &&& forall|i: int|
                    0 <= i < picks.len() ==> dice.rolls()[i].value == #[trigger] picks[i]
                        && dice.rolls()[i].below == n - i
            },
{
    let dice = choose|dice: Dice| #[trigger] dice.rolls() == chance::rolls_of(picks, n);
    assert(dice.rolls().len() == picks.len());
    assert forall|i: int| 0 <= i < picks.len() implies dice.rolls()[i].value == #[trigger] picks[i]
        && dice.rolls()[i].below == n - i by {
        assert(dice.rolls()[i] == chance::rolls_of(picks, n)[i]);
    }
}

} // verus!
