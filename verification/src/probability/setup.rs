//! Turning a board into the constraint problem the estimators work on.
//!
//! The unopened cells become the unknowns, every visible number becomes "exactly
//! `k` of these are mines", and propagation settles whatever local rules alone can
//! settle before any search begins.

use vstd::prelude::*;
use vstd::set_lib::*;
use crate::board;
use crate::board::{Cell, CellContent, CellState, Minesweeper};
use crate::capped;
use crate::layouts;
use crate::layouts::Demand;
use crate::probability::components;
use crate::probability::propagate;
use crate::probability::propagate::Known;
use crate::probability::reduce;
use crate::probability::slices;

verus! {

/// The constraint problem of a board, with the settled cells taken out.
pub struct SimSetup {
    /// The unopened cells that propagation did not settle.
    pub hidden_cells: Vec<(usize, usize)>,
    /// The numbers over `hidden_cells`: cells by index, and how many are mines.
    pub constraints: Vec<(Vec<usize>, usize)>,
    /// The mines to distribute among `hidden_cells`.
    pub mines_to_place: usize,
    /// Cells that propagation proved to be mines.
    pub certain_mines: Vec<(usize, usize)>,
    /// Cells that propagation proved to be safe.
    pub certain_safe: Vec<(usize, usize)>,
}

// ---------------------------------------------------------------------------
// What a board says
// ---------------------------------------------------------------------------

/// Whether a cell is not open: hidden, or hidden with a flag on it.
pub open spec fn unopened_test(game: Minesweeper) -> spec_fn(int, int) -> bool {
    |x: int, y: int| game.at(x, y).state != CellState::Visible
}

/// The unopened cells, row by row.
pub open spec fn unopened(game: Minesweeper) -> Seq<(usize, usize)> {
    board::scan(unopened_test(game), game.width as int, game.height as int)
}

/// Whether a cell shows a mine.
pub open spec fn shown_mine_test(game: Minesweeper) -> spec_fn(int, int) -> bool {
    |x: int, y: int| game.at(x, y).state == CellState::Visible && game.mine_at(x, y)
}

/// How many mines are still out there.
pub open spec fn mines_left(game: Minesweeper) -> nat {
    propagate::less(
        game.mines_count as nat,
        board::scan(shown_mine_test(game), game.width as int, game.height as int).len(),
    )
}

/// Whether a position is an unopened cell of a board.
pub open spec fn is_unopened(game: Minesweeper, p: (usize, usize)) -> bool {
    game.has(p.0 as int, p.1 as int) && game.at(p.0 as int, p.1 as int).state
        != CellState::Visible
}

/// Where a cell stands in a list.
pub open spec fn index_in(list: Seq<(usize, usize)>, p: (usize, usize)) -> int {
    choose|i: int| 0 <= i < list.len() && list[i] == p
}

/// The unopened cells of a list, by index.
pub open spec fn covers(game: Minesweeper, cells: Seq<(usize, usize)>) -> Seq<usize>
    decreases cells.len(),
{
    if cells.len() == 0 {
        Seq::empty()
    } else {
        let front = covers(game, cells.drop_last());
        let p = cells.last();
        if unopened_test(game)(p.0 as int, p.1 as int) {
            front.push(index_in(unopened(game), p) as usize)
        } else {
            front
        }
    }
}

/// How many cells of a list show a mine.
pub open spec fn shown_in(game: Minesweeper, cells: Seq<(usize, usize)>) -> nat
    decreases cells.len(),
{
    if cells.len() == 0 {
        0
    } else {
        let p = cells.last();
        shown_in(game, cells.drop_last()) + if shown_mine_test(game)(p.0 as int, p.1 as int) {
            1nat
        } else {
            0nat
        }
    }
}

/// The number under a cell.
pub open spec fn number_of(content: CellContent) -> nat {
    match content {
        CellContent::Empty(n) => n as nat,
        CellContent::Mine => 0,
    }
}

/// What the number at a position says about the unopened cells.
pub open spec fn demand_at(game: Minesweeper, x: int, y: int) -> Demand {
    Demand {
        cells: covers(game, game.around(x, y)),
        mines: propagate::less(
            number_of(game.at(x, y).content),
            shown_in(game, game.around(x, y)),
        ),
    }
}

/// Whether a position shows a number that constrains something. A zero does too.
/// One with nothing unopened around it does not, nor one that asks for more mines
/// than there are cells.
pub open spec fn speaks_test(game: Minesweeper) -> spec_fn(int, int) -> bool {
    |x: int, y: int|
        {
            &&& game.at(x, y).state == CellState::Visible
            &&& !game.mine_at(x, y)
            &&& demand_at(game, x, y).cells.len() > 0
            &&& demand_at(game, x, y).mines <= demand_at(game, x, y).cells.len()
        }
}

/// The positions whose numbers constrain something, row by row.
pub open spec fn speakers(game: Minesweeper) -> Seq<(usize, usize)> {
    board::scan(speaks_test(game), game.width as int, game.height as int)
}

/// What the numbers at some positions say.
pub open spec fn demands_at(game: Minesweeper, cells: Seq<(usize, usize)>) -> Seq<Demand> {
    Seq::new(cells.len(), |i: int| demand_at(game, cells[i].0 as int, cells[i].1 as int))
}

/// What the board's numbers say about the unopened cells.
pub open spec fn board_demands(game: Minesweeper) -> Seq<Demand> {
    demands_at(game, speakers(game))
}

/// What propagation settles on a board, by index of unopened cell.
pub open spec fn board_known(game: Minesweeper) -> Known {
    propagate::propagated(unopened(game).len(), board_demands(game), mines_left(game))
}

/// The entries of a list at some indices.
pub open spec fn picked(list: Seq<(usize, usize)>, indices: Seq<usize>) -> Seq<(usize, usize)> {
    Seq::new(indices.len(), |i: int| list[indices[i] as int])
}

impl SimSetup {
    /// Whether this is the problem of a board.
    pub open spec fn describes(self, game: Minesweeper) -> bool {
        let n = unopened(game).len();
        let known = board_known(game);
        &&& self.hidden_cells@ == picked(unopened(game), reduce::kept(known, n))
        &&& layouts::demands(self.constraints@) == reduce::reduced(board_demands(game), known, n)
        &&& self.mines_to_place == propagate::less(mines_left(game), known.mines.len())
        &&& self.certain_mines@ == picked(
            unopened(game),
            propagate::listed(known.mines, n as int),
        )
        &&& self.certain_safe@ == picked(unopened(game), propagate::listed(known.safe, n as int))
    }

    /// Whether the numbers speak about distinct cells of the problem, and about some.
    pub open spec fn wf(self) -> bool {
        &&& propagate::proper_demands(
            layouts::demands(self.constraints@),
            self.hidden_cells@.len(),
        )
        &&& forall|i: int|
            0 <= i < self.constraints@.len() ==> (#[trigger] self.constraints@[i]).0@.len() > 0
    }
}

// ---------------------------------------------------------------------------
// Facts about the numbers
// ---------------------------------------------------------------------------

/// Looking up an unopened cell gives its place in the list.
pub proof fn lemma_index(game: Minesweeper, p: (usize, usize))
    requires
        p.0 < game.width,
        p.1 < game.height,
        unopened_test(game)(p.0 as int, p.1 as int),
    ensures
        0 <= index_in(unopened(game), p) < unopened(game).len(),
        unopened(game)[index_in(unopened(game), p)] == p,
{
    board::lemma_scan(unopened_test(game), game.width, game.height);
    assert(unopened(game).contains(p));
}

/// An entry of the list of unopened cells stands where its lookup says.
pub proof fn lemma_index_back(game: Minesweeper, i: int)
    requires
        0 <= i < unopened(game).len(),
    ensures
        index_in(unopened(game), unopened(game)[i]) == i,
        unopened(game)[i].0 < game.width,
        unopened(game)[i].1 < game.height,
        unopened_test(game)(unopened(game)[i].0 as int, unopened(game)[i].1 as int),
{
    let list = unopened(game);
    board::lemma_scan(unopened_test(game), game.width, game.height);
    let j = index_in(list, list[i]);
    assert(0 <= j < list.len() && list[j] == list[i]);
    if j < i {
        assert(board::earlier(list[j], list[i]));
    } else if i < j {
        assert(board::earlier(list[i], list[j]));
    }
}

/// The indices a number covers are distinct, and those of its unopened neighbours.
pub proof fn lemma_covers(game: Minesweeper, cells: Seq<(usize, usize)>)
    requires
        board::row_major(cells),
        forall|i: int|
            0 <= i < cells.len() ==> (#[trigger] cells[i]).0 < game.width && cells[i].1
                < game.height,
        unopened(game).len() <= usize::MAX,
    ensures
        layouts::distinct_below(covers(game, cells), unopened(game).len()),
        forall|i: int|
            0 <= i < covers(game, cells).len() ==> cells.contains(
                unopened(game)[#[trigger] covers(game, cells)[i] as int],
            ),
        forall|i: int|
            0 <= i < cells.len() && unopened_test(game)(
                (#[trigger] cells[i]).0 as int,
                cells[i].1 as int,
            ) ==> covers(game, cells).contains(index_in(unopened(game), cells[i]) as usize),
        covers(game, cells).len() <= cells.len(),
    decreases cells.len(),
{
    if cells.len() > 0 {
        let rest = cells.drop_last();
        let p = cells.last();
        let last = cells.len() - 1;
        assert(p == cells[last]);
        assert(board::row_major(rest)) by {
            assert forall|i: int, j: int| 0 <= i < j < rest.len() implies board::earlier(
                #[trigger] rest[i],
                #[trigger] rest[j],
            ) by {
                assert(rest[i] == cells[i] && rest[j] == cells[j]);
            }
        }
        assert forall|i: int| 0 <= i < rest.len() implies (#[trigger] rest[i]).0 < game.width
            && rest[i].1 < game.height by {
            assert(rest[i] == cells[i]);
        }
        lemma_covers(game, rest);
        let front = covers(game, rest);
        let all = covers(game, cells);
        assert forall|i: int| 0 <= i < front.len() implies cells.contains(
            unopened(game)[#[trigger] front[i] as int],
        ) && unopened(game)[front[i] as int] != p by {
            let q = unopened(game)[front[i] as int];
            assert(rest.contains(q));
            let k = choose|k: int| 0 <= k < rest.len() && rest[k] == q;
            assert(cells[k] == q);
            assert(board::earlier(cells[k], cells[last]));
        }
        if unopened_test(game)(p.0 as int, p.1 as int) {
            lemma_index(game, p);
            let at = index_in(unopened(game), p) as usize;
            assert(all == front.push(at));
            assert forall|i: int| 0 <= i < all.len() implies cells.contains(
                unopened(game)[#[trigger] all[i] as int],
            ) by {
                if i < front.len() {
                    assert(all[i] == front[i]);
                } else {
                    assert(cells[last] == p);
                }
            }
            assert forall|i: int, j: int| 0 <= i < j < all.len() implies all[i] != all[j] by {
                if j == front.len() {
                    assert(all[i] == front[i]);
                } else {
                    assert(all[i] == front[i] && all[j] == front[j]);
                }
            }
            assert(all[front.len() as int] == at);
        }
        assert forall|i: int|
            0 <= i < cells.len() && unopened_test(game)(
                (#[trigger] cells[i]).0 as int,
                cells[i].1 as int,
            ) implies all.contains(index_in(unopened(game), cells[i]) as usize) by {
            if i < last {
                assert(rest[i] == cells[i]);
                let v = index_in(unopened(game), rest[i]) as usize;
                assert(front.contains(v));
                let k = choose|k: int| 0 <= k < front.len() && front[k] == v;
                assert(all[k] == v);
            }
        }
    }
}

/// The numbers of a board speak about distinct unopened cells.
pub proof fn lemma_board_demands(game: Minesweeper)
    requires
        unopened(game).len() <= usize::MAX,
    ensures
        propagate::proper_demands(board_demands(game), unopened(game).len()),
{
    board::lemma_scan(speaks_test(game), game.width, game.height);
    let list = speakers(game);
    assert forall|i: int| 0 <= i < board_demands(game).len() implies layouts::distinct_below(
        (#[trigger] board_demands(game)[i]).cells,
        unopened(game).len(),
    ) by {
        let p = list[i];
        board::lemma_neighbours(p.0 as int, p.1 as int, game.width, game.height);
        lemma_covers(game, game.around(p.0 as int, p.1 as int));
    }
}

// ---------------------------------------------------------------------------
// Reading the board
// ---------------------------------------------------------------------------

/// Lists the unopened cells, row by row.
pub(crate) fn list_unopened(game: &Minesweeper) -> (list: Vec<(usize, usize)>)
    requires
        game.wf(),
    ensures
        list@ == unopened(*game),
{
    let ghost test = unopened_test(*game);
    let mut list: Vec<(usize, usize)> = Vec::new();
    for y in 0..game.height
        invariant
            game.wf(),
            test == unopened_test(*game),
            list@ == board::scan(test, game.width as int, y as int),
    {
        let ghost above = list@;
        for x in 0..game.width
            invariant
                game.wf(),
                y < game.height,
                test == unopened_test(*game),
                list@ == above + board::scan_row(test, y as int, x as int),
        {
            if game.grid[y][x].state != CellState::Visible {
                list.push((x, y));
            }
            assert(list@ =~= above + board::scan_row(test, y as int, x + 1));
        }
        assert(list@ =~= board::scan(test, game.width as int, y + 1));
    }
    list
}

/// Whether a cell shows a mine.
fn shows_mine(game: &Minesweeper, x: usize, y: usize) -> (shown: bool)
    requires
        game.wf(),
        game.has(x as int, y as int),
    ensures
        shown == shown_mine_test(*game)(x as int, y as int),
{
    match game.grid[y][x].content {
        CellContent::Mine => game.grid[y][x].state == CellState::Visible,
        CellContent::Empty(_) => false,
    }
}

/// Counts the mines that are still out there.
pub(crate) fn count_mines_left(game: &Minesweeper) -> (left: usize)
    requires
        game.wf(),
    ensures
        left == mines_left(*game),
{
    let ghost test = shown_mine_test(*game);
    let mut left: usize = game.mines_count;
    let ghost mut seen: nat = 0;
    for y in 0..game.height
        invariant
            game.wf(),
            test == shown_mine_test(*game),
            seen == board::scan(test, game.width as int, y as int).len(),
            left == propagate::less(game.mines_count as nat, seen),
    {
        let ghost above = seen;
        for x in 0..game.width
            invariant
                game.wf(),
                y < game.height,
                test == shown_mine_test(*game),
                seen == above + board::scan_row(test, y as int, x as int).len(),
                left == propagate::less(game.mines_count as nat, seen),
        {
            if shows_mine(game, x, y) {
                left = left.saturating_sub(1);
                proof {
                    seen = seen + 1;
                }
            }
        }
    }
    left
}

/// Makes the reverse lookup: for each unopened cell its place in the list.
fn index_cells(game: &Minesweeper, list: &Vec<(usize, usize)>) -> (index: Vec<Vec<usize>>)
    requires
        game.wf(),
        list@ == unopened(*game),
    ensures
        index@.len() == game.height,
        forall|y: int| 0 <= y < game.height ==> (#[trigger] index@[y])@.len() == game.width,
        forall|i: int|
            0 <= i < list@.len() ==> index@[(#[trigger] list@[i]).1 as int]@[list@[i].0 as int]
                == i,
{
    let mut index: Vec<Vec<usize>> = Vec::new();
    for y in 0..game.height
        invariant
            index@.len() == y,
            forall|j: int| 0 <= j < y ==> (#[trigger] index@[j])@.len() == game.width,
    {
        let mut row: Vec<usize> = Vec::new();
        for x in 0..game.width
            invariant
                row@.len() == x,
        {
            row.push(0);
        }
        index.push(row);
    }
    proof {
        board::lemma_scan(unopened_test(*game), game.width, game.height);
    }
    for i in 0..list.len()
        invariant
            list@ == unopened(*game),
            board::row_major(list@),
            forall|k: int|
                0 <= k < list@.len() ==> (#[trigger] list@[k]).0 < game.width && list@[k].1
                    < game.height,
            index@.len() == game.height,
            forall|y: int| 0 <= y < game.height ==> (#[trigger] index@[y])@.len() == game.width,
            forall|k: int|
                0 <= k < i ==> index@[(#[trigger] list@[k]).1 as int]@[list@[k].0 as int] == k,
    {
        let (x, y): (usize, usize) = list[i];
        let ghost before = index@;
        assert(index@[y as int]@.len() == game.width);
        index[y][x] = i;
        proof {
            assert forall|j: int| 0 <= j < game.height implies (#[trigger] index@[j])@.len()
                == game.width by {
                assert(before[j]@.len() == game.width);
            }
            assert forall|k: int| 0 <= k < i + 1 implies index@[(
            #[trigger] list@[k]).1 as int]@[list@[k].0 as int] == k by {
                if k < i {
                    assert(board::earlier(list@[k], list@[i as int]));
                    assert(before[list@[k].1 as int]@.len() == game.width);
                }
            }
        }
    }
    index
}

/// Reads what the number at a position says, if it constrains something.
fn constraint_at(game: &Minesweeper, index: &Vec<Vec<usize>>, x: usize, y: usize) -> (result:
    Option<(Vec<usize>, usize)>)
    requires
        game.wf(),
        game.has(x as int, y as int),
        index@.len() == game.height,
        forall|j: int| 0 <= j < game.height ==> (#[trigger] index@[j])@.len() == game.width,
        forall|i: int|
            0 <= i < unopened(*game).len() ==> index@[(#[trigger] unopened(
                *game,
            )[i]).1 as int]@[unopened(*game)[i].0 as int] == i,
        unopened(*game).len() <= usize::MAX,
    ensures
        result is Some <==> speaks_test(*game)(x as int, y as int),
        result matches Some(c) ==> c.0@ == demand_at(*game, x as int, y as int).cells && c.1
            == demand_at(*game, x as int, y as int).mines,
{
    if game.grid[y][x].state != CellState::Visible {
        return None;
    }
    let total: usize = match game.grid[y][x].content {
        CellContent::Empty(n) => n as usize,
        CellContent::Mine => {
            return None;
        },
    };
    let list: Vec<(usize, usize)> = board::neighbours(x, y, game.width, game.height);
    proof {
        board::lemma_neighbours(x as int, y as int, game.width, game.height);
    }
    let mut shown: usize = 0;
    let mut cells: Vec<usize> = Vec::new();
    for i in 0..list.len()
        invariant
            game.wf(),
            list@.len() <= 8,
            board::all_adjacent(
                list@,
                x as int,
                y as int,
                game.width as int,
                game.height as int,
            ),
            index@.len() == game.height,
            forall|j: int| 0 <= j < game.height ==> (#[trigger] index@[j])@.len() == game.width,
            forall|k: int|
                0 <= k < unopened(*game).len() ==> index@[(#[trigger] unopened(
                    *game,
                )[k]).1 as int]@[unopened(*game)[k].0 as int] == k,
            unopened(*game).len() <= usize::MAX,
            shown <= i,
            shown == shown_in(*game, list@.take(i as int)),
            cells@ == covers(*game, list@.take(i as int)),
    {
        let (nx, ny): (usize, usize) = list[i];
        assert(list@.take(i + 1).drop_last() =~= list@.take(i as int));
        assert(list@.take(i + 1).last() == (nx, ny));
        if shows_mine(game, nx, ny) {
            shown = shown + 1;
        } else if game.grid[ny][nx].state != CellState::Visible {
            proof {
                lemma_index(*game, (nx, ny));
                assert(index@[ny as int]@.len() == game.width);
            }
            cells.push(index[ny][nx]);
        }
    }
    assert(list@.take(list@.len() as int) =~= list@);
    let required: usize = total.saturating_sub(shown);
    if cells.len() == 0 || required > cells.len() {
        None
    } else {
        Some((cells, required))
    }
}

/// Reads what every number says.
fn read_constraints(game: &Minesweeper, list: &Vec<(usize, usize)>) -> (constraints: Vec<
    (Vec<usize>, usize),
>)
    requires
        game.wf(),
        list@ == unopened(*game),
    ensures
        layouts::demands(constraints@) =~= board_demands(*game),
{
    let index: Vec<Vec<usize>> = index_cells(game, list);
    let ghost test = speaks_test(*game);
    let mut constraints: Vec<(Vec<usize>, usize)> = Vec::new();
    assert(unopened(*game).len() == list.len());
    assert(layouts::demands(constraints@) =~= demands_at(
        *game,
        board::scan(test, game.width as int, 0),
    ));
    for y in 0..game.height
        invariant
            game.wf(),
            unopened(*game).len() <= usize::MAX,
            test == speaks_test(*game),
            index@.len() == game.height,
            forall|j: int| 0 <= j < game.height ==> (#[trigger] index@[j])@.len() == game.width,
            forall|k: int|
                0 <= k < unopened(*game).len() ==> index@[(#[trigger] unopened(
                    *game,
                )[k]).1 as int]@[unopened(*game)[k].0 as int] == k,
            layouts::demands(constraints@) =~= demands_at(
                *game,
                board::scan(test, game.width as int, y as int),
            ),
    {
        let ghost above = board::scan(test, game.width as int, y as int);
        assert(above + board::scan_row(test, y as int, 0) =~= above);
        for x in 0..game.width
            invariant
                game.wf(),
                y < game.height,
                unopened(*game).len() <= usize::MAX,
                test == speaks_test(*game),
                index@.len() == game.height,
                forall|j: int|
                    0 <= j < game.height ==> (#[trigger] index@[j])@.len() == game.width,
                forall|k: int|
                    0 <= k < unopened(*game).len() ==> index@[(#[trigger] unopened(
                        *game,
                    )[k]).1 as int]@[unopened(*game)[k].0 as int] == k,
                layouts::demands(constraints@) =~= demands_at(
                    *game,
                    above + board::scan_row(test, y as int, x as int),
                ),
        {
            let ghost before = above + board::scan_row(test, y as int, x as int);
            let ghost after = above + board::scan_row(test, y as int, x + 1);
            let ghost seen = layouts::demands(constraints@);
            match constraint_at(game, &index, x, y) {
                Some(constraint) => {
                    constraints.push(constraint);
                    proof {
                        let said = demand_at(*game, x as int, y as int);
                        assert(after =~= before.push((x, y)));
                        assert(demands_at(*game, after) =~= demands_at(*game, before).push(said));
                        assert(layouts::demands(constraints@) =~= seen.push(said));
                    }
                },
                None => {
                    assert(after =~= before);
                },
            }
        }
    }
    constraints
}

/// Copies the entries of a list at some indices.
fn pick(list: &Vec<(usize, usize)>, indices: &Vec<usize>) -> (out: Vec<(usize, usize)>)
    requires
        layouts::distinct_below(indices@, list@.len()),
    ensures
        out@ =~= picked(list@, indices@),
{
    let mut out: Vec<(usize, usize)> = Vec::new();
    for i in 0..indices.len()
        invariant
            layouts::distinct_below(indices@, list@.len()),
            out@.len() == i,
            forall|k: int| 0 <= k < i ==> #[trigger] out@[k] == list@[indices@[k] as int],
    {
        out.push(list[indices[i]]);
    }
    out
}

impl SimSetup {
    /// Reads a board. There is no problem to solve where more mines are left than
    /// cells to put them in.
    pub fn build(game: &Minesweeper) -> (result: Option<Self>)
        requires
            game.wf(),
        ensures
            result is None <==> mines_left(*game) > unopened(*game).len(),
            result matches Some(setup) ==> setup.describes(*game) && setup.wf(),
            unopened(*game).len() <= usize::MAX,
    {
        let all_hidden: Vec<(usize, usize)> = list_unopened(game);
        let n: usize = all_hidden.len();
        assert(unopened(*game).len() == n);
        let total: usize = count_mines_left(game);
        if total > n {
            return None;
        }
        let raw: Vec<(Vec<usize>, usize)> = read_constraints(game, &all_hidden);
        let ghost ds = board_demands(*game);
        let ghost known = board_known(*game);
        proof {
            lemma_board_demands(*game);
            propagate::law_propagation_reaches_a_fixpoint(n as nat, ds, total as nat);
        }
        let (mines, safe, updated, mines_to_place): (
            Vec<usize>,
            Vec<usize>,
            Vec<(Vec<usize>, usize)>,
            usize,
        ) = propagate::propagate(n, &raw, total);
        proof {
            propagate::lemma_listed(known.mines, n);
            propagate::lemma_listed(known.safe, n);
            let cells = layouts::first_cells(n as nat);
            assert forall|c: int| known.mines.contains(c) || known.safe.contains(c) implies cells.contains(
                c,
            ) by {
                assert(known.settled().contains(c));
            }
            assert(known.mines.intersect(cells) =~= known.mines);
            assert(known.safe.intersect(cells) =~= known.safe);
        }
        let mut settled: Vec<bool> = Vec::new();
        for i in 0..n
            invariant
                settled@.len() == i,
                forall|k: int| 0 <= k < i ==> !#[trigger] settled@[k],
        {
            settled.push(false);
        }
        assert(propagate::set_flags(settled@) =~= Set::<int>::empty());
        propagate::set_all(&mut settled, &mines);
        propagate::set_all(&mut settled, &safe);
        assert(propagate::set_flags(settled@) =~= known.settled());
        let mut uncertain: Vec<usize> = Vec::new();
        let mut new_index: Vec<usize> = Vec::new();
        for i in 0..n
            invariant
                n == unopened(*game).len(),
                settled@.len() == n,
                propagate::set_flags(settled@) == known.settled(),
                new_index@.len() == i,
                uncertain@ == propagate::listed(known.open(n as nat), i as int),
                uncertain@.len() <= i,
                forall|k: int|
                    0 <= k < i ==> #[trigger] new_index@[k] == reduce::rank(known, n as nat, k),
        {
            new_index.push(uncertain.len());
            assert(propagate::set_flags(settled@).contains(i as int) <==> settled@[i as int]);
            if !settled[i] {
                uncertain.push(i);
            }
        }
        proof {
            reduce::lemma_kept(known, n);
        }
        let hidden_cells: Vec<(usize, usize)> = pick(&all_hidden, &uncertain);
        let mut constraints: Vec<(Vec<usize>, usize)> = Vec::new();
        assert(layouts::demands(constraints@) =~= reduce::reduced_upto(ds, known, n as nat, 0));
        assert(layouts::demands(updated@).len() == ds.len());
        for i in 0..updated.len()
            invariant
                n == unopened(*game).len(),
                known.proper(n as nat),
                propagate::proper_demands(ds, n as nat),
                settled@.len() == n,
                propagate::set_flags(settled@) == known.settled(),
                new_index@.len() == n,
                forall|k: int|
                    0 <= k < n ==> #[trigger] new_index@[k] == reduce::rank(known, n as nat, k),
                updated@.len() == ds.len(),
                layouts::demands(updated@) =~= propagate::discounted(ds, known.mines),
                layouts::demands(constraints@) =~= reduce::reduced_upto(
                    ds,
                    known,
                    n as nat,
                    i as int,
                ),
        {
            let cells: &Vec<usize> = &updated[i].0;
            let required: usize = updated[i].1;
            proof {
                let d = layouts::demands(updated@)[i as int];
                assert(d == propagate::discounted(ds, known.mines)[i as int]);
                assert(cells@ == ds[i as int].cells);
                assert(layouts::distinct_below(ds[i as int].cells, n as nat));
            }
            let mut renumbered: Vec<usize> = Vec::new();
            for j in 0..cells.len()
                invariant
                    layouts::distinct_below(cells@, n as nat),
                    settled@.len() == n,
                    propagate::set_flags(settled@) == known.settled(),
                    new_index@.len() == n,
                    forall|k: int|
                        0 <= k < n ==> #[trigger] new_index@[k] == reduce::rank(
                            known,
                            n as nat,
                            k,
                        ),
                    renumbered@ =~= reduce::renumbered(cells@.take(j as int), known, n as nat),
            {
                let cell: usize = cells[j];
                let ghost open = slices::outside(cells@.take(j as int), known.settled());
                let ghost more = slices::outside(cells@.take(j + 1), known.settled());
                assert(cells@.take(j + 1).drop_last() =~= cells@.take(j as int));
                assert(propagate::set_flags(settled@).contains(cell as int)
                    <==> settled@[cell as int]);
                if !settled[cell] {
                    renumbered.push(new_index[cell]);
                    assert(more =~= open.push(cell));
                }
                assert(renumbered@ =~= reduce::renumbered(cells@.take(j + 1), known, n as nat));
            }
            assert(cells@.take(cells@.len() as int) =~= cells@);
            let ghost front = layouts::demands(constraints@);
            if renumbered.len() > 0 {
                constraints.push((renumbered, required));
                assert(layouts::demands(constraints@) =~= front.push(
                    reduce::reduced_one(ds[i as int], known, n as nat),
                ));
            }
        }
        let certain_mines: Vec<(usize, usize)> = pick(&all_hidden, &mines);
        let certain_safe: Vec<(usize, usize)> = pick(&all_hidden, &safe);
        let setup = Self {
            hidden_cells,
            constraints,
            mines_to_place,
            certain_mines,
            certain_safe,
        };
        proof {
            reduce::lemma_reduced(ds, known, n, ds.len() as int);
            let small = layouts::demands(setup.constraints@);
            assert forall|i: int| 0 <= i < setup.constraints@.len() implies (
            #[trigger] setup.constraints@[i]).0@.len() > 0 by {
                assert(small[i].cells.len() > 0);
            }
        }
        Some(setup)
    }
}

// ---------------------------------------------------------------------------
// Memory
// ---------------------------------------------------------------------------

/// How many cells the first `i` numbers count, with repetition.
pub open spec fn counted_cells(ds: Seq<Demand>, i: int) -> nat
    decreases i,
{
    if i <= 0 {
        0
    } else {
        counted_cells(ds, i - 1) + ds[i - 1].cells.len()
    }
}

/// Rough heap cost of a solve's working set: the problem itself, and the counts,
/// lists and lookup tables that go with it.
pub open spec fn memory(setup: SimSetup) -> nat {
    let ds = layouts::demands(setup.constraints@);
    let n = setup.hidden_cells@.len();
    let t = counted_cells(ds, ds.len() as int);
    let c = ds.len();
    let problem = n * 16 + (t * 8 + c * 24) + setup.certain_mines@.len() * 16;
    let working = n * 8 + n * 8 + n * 8 + n + (t * 8 + c * 24) + n * 48;
    problem + working
}

/// Counts how many cells the numbers count, with repetition.
pub(crate) fn count_cells(setup: &SimSetup) -> (count: usize)
    ensures
        count == capped::capped(
            counted_cells(
                layouts::demands(setup.constraints@),
                setup.constraints@.len() as int,
            ),
        ),
{
    let mut count: usize = 0;
    for i in 0..setup.constraints.len()
        invariant
            count == capped::capped(
                counted_cells(layouts::demands(setup.constraints@), i as int),
            ),
    {
        count = count.saturating_add(setup.constraints[i].0.len());
    }
    count
}

/// Rough heap estimate for a solve's working set, for the memory readouts.
pub fn memory_estimate(setup: &SimSetup) -> (size: usize)
    ensures
        size == capped::capped(memory(*setup)),
{
    let n: usize = setup.hidden_cells.len();
    let t: usize = count_cells(setup);
    let c: usize = setup.constraints.len();
    let lists: usize = capped::scaled(t, 16, 0).saturating_add(capped::scaled(c, 48, 0));
    let cells: usize = capped::scaled(n, 89, 0);
    let mines: usize = capped::scaled(setup.certain_mines.len(), 16, 0);
    cells.saturating_add(lists).saturating_add(mines)
}

/// The open cells of a problem are unopened cells of its board.
pub proof fn lemma_fewer_cells(game: Minesweeper, set_up: SimSetup)
    requires
        set_up.describes(game),
        unopened(game).len() <= usize::MAX,
    ensures
        set_up.hidden_cells@.len() <= unopened(game).len(),
{
    lemma_board_demands(game);
    propagate::law_propagation_reaches_a_fixpoint(
        unopened(game).len(),
        board_demands(game),
        mines_left(game),
    );
    reduce::lemma_kept(board_known(game), unopened(game).len() as usize);
}

/// The cells that the numbers settle are unopened cells.
pub proof fn lemma_settled_cells(game: Minesweeper, set_up: SimSetup)
    requires
        set_up.describes(game),
        unopened(game).len() <= usize::MAX,
    ensures
        forall|i: int|
            0 <= i < set_up.certain_mines@.len() ==> is_unopened(
                game,
                #[trigger] set_up.certain_mines@[i],
            ),
        forall|i: int|
            0 <= i < set_up.certain_safe@.len() ==> is_unopened(
                game,
                #[trigger] set_up.certain_safe@[i],
            ),
{
    let list = unopened(game);
    let n = list.len() as usize;
    let known = board_known(game);
    lemma_board_demands(game);
    propagate::law_propagation_reaches_a_fixpoint(n as nat, board_demands(game), mines_left(game));
    board::lemma_scan(unopened_test(game), game.width, game.height);
    propagate::lemma_listed(known.mines, n);
    propagate::lemma_listed(known.safe, n);
    let mines = propagate::listed(known.mines, n as int);
    let safe = propagate::listed(known.safe, n as int);
    assert forall|i: int| 0 <= i < set_up.certain_mines@.len() implies is_unopened(
        game,
        #[trigger] set_up.certain_mines@[i],
    ) by {
        let p = list[mines[i] as int];
        assert(set_up.certain_mines@[i] == p);
        assert(unopened_test(game)(p.0 as int, p.1 as int));
    }
    assert forall|i: int| 0 <= i < set_up.certain_safe@.len() implies is_unopened(
        game,
        #[trigger] set_up.certain_safe@[i],
    ) by {
        let p = list[safe[i] as int];
        assert(set_up.certain_safe@[i] == p);
        assert(unopened_test(game)(p.0 as int, p.1 as int));
    }
}

// ---------------------------------------------------------------------------
// Flags
// ---------------------------------------------------------------------------

/// Whether two boards show the same: the same cells are open, with the same in them.
/// Flags may differ, and so may what lies under the other cells.
pub open spec fn shows_the_same(a: Minesweeper, b: Minesweeper) -> bool {
    &&& a.width == b.width
    &&& a.height == b.height
    &&& a.mines_count == b.mines_count
    &&& forall|x: int, y: int|
        a.has(x, y) ==> shows_alike(#[trigger] a.at(x, y), b.at(x, y))
}

/// Whether two cells show the same.
pub open spec fn shows_alike(a: Cell, b: Cell) -> bool {
    &&& a.state == CellState::Visible <==> b.state == CellState::Visible
    &&& a.state == CellState::Visible ==> a.content == b.content
}

/// Showing the same carries over.
pub proof fn lemma_shows_on(a: Minesweeper, b: Minesweeper, c: Minesweeper)
    requires
        shows_the_same(a, b),
        shows_the_same(b, c),
    ensures
        shows_the_same(a, c),
{
    assert forall|x: int, y: int| a.has(x, y) implies shows_alike(
        #[trigger] a.at(x, y),
        c.at(x, y),
    ) by {
        assert(b.has(x, y));
        assert(shows_alike(b.at(x, y), c.at(x, y)));
    }
}

proof fn lemma_same_covers(a: Minesweeper, b: Minesweeper, cells: Seq<(usize, usize)>)
    requires
        shows_the_same(a, b),
        unopened(a) == unopened(b),
        forall|i: int|
            0 <= i < cells.len() ==> a.has((#[trigger] cells[i]).0 as int, cells[i].1 as int),
    ensures
        covers(a, cells) == covers(b, cells),
        shown_in(a, cells) == shown_in(b, cells),
    decreases cells.len(),
{
    if cells.len() > 0 {
        let p = cells[cells.len() - 1];
        assert(a.has(p.0 as int, p.1 as int));
        assert(shows_alike(a.at(p.0 as int, p.1 as int), b.at(p.0 as int, p.1 as int)));
        lemma_same_covers(a, b, cells.drop_last());
    }
}

/// A flag is a player's opinion, not evidence: it changes neither the problem of a board
/// nor what propagation settles.
pub proof fn law_flags_do_not_change_the_problem(a: Minesweeper, b: Minesweeper)
    requires
        shows_the_same(a, b),
    ensures
        unopened(a) == unopened(b),
        mines_left(a) == mines_left(b),
        board_demands(a) == board_demands(b),
        board_known(a) == board_known(b),
{
    let w = a.width as int;
    let h = a.height as int;
    assert forall|x: int, y: int| 0 <= x < w && 0 <= y < h implies #[trigger] unopened_test(a)(
        x,
        y,
    ) == unopened_test(b)(x, y) by {
        assert(a.has(x, y));
        assert(shows_alike(a.at(x, y), b.at(x, y)));
    }
    board::lemma_scan_same(unopened_test(a), unopened_test(b), w, h);
    assert forall|x: int, y: int| 0 <= x < w && 0 <= y < h implies #[trigger] shown_mine_test(a)(
        x,
        y,
    ) == shown_mine_test(b)(x, y) by {
        assert(a.has(x, y));
        assert(shows_alike(a.at(x, y), b.at(x, y)));
    }
    board::lemma_scan_same(shown_mine_test(a), shown_mine_test(b), w, h);
    assert forall|x: int, y: int|
        a.has(x, y) && a.at(x, y).state == CellState::Visible implies #[trigger] demand_at(a, x, y)
        == demand_at(b, x, y) by {
        board::lemma_neighbours(x, y, a.width, a.height);
        lemma_same_covers(a, b, a.around(x, y));
        assert(shows_alike(a.at(x, y), b.at(x, y)));
    }
    assert forall|x: int, y: int| 0 <= x < w && 0 <= y < h implies #[trigger] speaks_test(a)(x, y)
        == speaks_test(b)(x, y) by {
        assert(a.has(x, y));
        assert(shows_alike(a.at(x, y), b.at(x, y)));
        if a.at(x, y).state == CellState::Visible {
            assert(demand_at(a, x, y) == demand_at(b, x, y));
        }
    }
    board::lemma_scan_same(speaks_test(a), speaks_test(b), w, h);
    board::lemma_scan(speaks_test(a), a.width, a.height);
    let list = speakers(a);
    assert forall|i: int| 0 <= i < list.len() implies demand_at(
        a,
        (#[trigger] list[i]).0 as int,
        list[i].1 as int,
    ) == demand_at(b, list[i].0 as int, list[i].1 as int) by {
        assert(a.has(list[i].0 as int, list[i].1 as int));
        assert(speaks_test(a)(list[i].0 as int, list[i].1 as int));
    }
    assert(board_demands(a) =~= board_demands(b));
}

/// Cells are looked up in the order in which they are listed.
proof fn lemma_covers_ascends(game: Minesweeper, cells: Seq<(usize, usize)>)
    requires
        unopened(game).len() <= usize::MAX,
        board::row_major(cells),
        forall|i: int|
            0 <= i < cells.len() ==> game.has((#[trigger] cells[i]).0 as int, cells[i].1 as int),
    ensures
        components::ascending(covers(game, cells)),
        forall|i: int|
            #![trigger covers(game, cells)[i]]
            0 <= i < covers(game, cells).len() ==> covers(game, cells)[i] < unopened(game).len()
                && cells.contains(unopened(game)[covers(game, cells)[i] as int]),
    decreases cells.len(),
{
    if cells.len() > 0 {
        let rest = cells.drop_last();
        let p = cells[cells.len() - 1];
        let list = unopened(game);
        assert forall|i: int, j: int| 0 <= i < j < rest.len() implies board::earlier(
            #[trigger] rest[i],
            #[trigger] rest[j],
        ) by {
            assert(board::earlier(cells[i], cells[j]));
        }
        assert forall|i: int| 0 <= i < rest.len() implies game.has(
            (#[trigger] rest[i]).0 as int,
            rest[i].1 as int,
        ) by {
            assert(rest[i] == cells[i]);
        }
        lemma_covers_ascends(game, rest);
        let front = covers(game, rest);
        let all = covers(game, cells);
        assert(game.has(p.0 as int, p.1 as int));
        board::lemma_scan(unopened_test(game), game.width, game.height);
        assert forall|i: int| 0 <= i < front.len() implies cells.contains(
            list[#[trigger] front[i] as int],
        ) && board::earlier(list[front[i] as int], p) by {
            let k = choose|k: int| 0 <= k < rest.len() && rest[k] == list[front[i] as int];
            assert(cells[k] == rest[k]);
            assert(board::earlier(cells[k], cells[cells.len() - 1]));
        }
        if unopened_test(game)(p.0 as int, p.1 as int) {
            lemma_index(game, p);
            let at = index_in(list, p);
            assert(all[front.len() as int] == at);
            assert forall|i: int| 0 <= i < front.len() implies (#[trigger] front[i]) < at by {
                assert(board::earlier(list[front[i] as int], list[at]));
                if front[i] > at {
                    assert(board::earlier(list[at], list[front[i] as int]));
                }
            }
            assert forall|i: int, j: int| 0 <= i < j < all.len() implies all[i] < all[j] by {
                assert(all[i] == front[i]);
                if j < front.len() {
                    assert(all[j] == front[j]);
                }
            }
            assert forall|i: int|
                #![trigger all[i]]
                0 <= i < all.len() implies all[i] < list.len() && cells.contains(
                list[all[i] as int],
            ) by {
                if i < front.len() {
                    assert(all[i] == front[i]);
                } else {
                    assert(cells[cells.len() - 1] == list[all[i] as int]);
                }
            }
        }
    }
}

/// The problem of a board holds open questions only. Each number speaks about some cells of
/// the problem, in ascending order, and needs some of them as mines, but not all. Where
/// there are cells at all, some mines are to be placed, but not on every cell.
pub proof fn law_only_open_questions_are_left(game: Minesweeper, set_up: SimSetup)
    requires
        unopened(game).len() <= usize::MAX,
        set_up.describes(game),
    ensures
        forall|i: int|
            0 <= i < set_up.constraints@.len() ==> {
                let cells = (#[trigger] set_up.constraints@[i]).0@;
                let mines = set_up.constraints@[i].1;
                &&& cells.len() > 0
                &&& components::ascending(cells)
                &&& layouts::distinct_below(cells, set_up.hidden_cells@.len())
                &&& mines != 0
                &&& mines != cells.len()
            },
        set_up.hidden_cells@.len() > 0 ==> set_up.mines_to_place != 0 && set_up.mines_to_place
            != set_up.hidden_cells@.len(),
{
    let n = unopened(game).len() as usize;
    let ds = board_demands(game);
    let known = board_known(game);
    let all = reduce::reduced(ds, known, n as nat);
    lemma_board_demands(game);
    propagate::law_propagation_reaches_a_fixpoint(n as nat, ds, mines_left(game));
    propagate::law_propagation_leaves_open_questions(n as nat, ds, mines_left(game));
    reduce::lemma_kept(known, n);
    reduce::lemma_reduced(ds, known, n, ds.len() as int);
    layouts::lemma_cell_set_len(reduce::kept(known, n as nat), n as nat);
    assert forall|i: int| 0 <= i < set_up.constraints@.len() implies {
        let cells = (#[trigger] set_up.constraints@[i]).0@;
        let mines = set_up.constraints@[i].1;
        &&& cells.len() > 0
        &&& components::ascending(cells)
        &&& layouts::distinct_below(cells, set_up.hidden_cells@.len())
        &&& mines != 0
        &&& mines != cells.len()
    } by {
        assert(layouts::demands(set_up.constraints@)[i] == all[i]);
        assert(layouts::distinct_below(all[i].cells, set_up.hidden_cells@.len()));
        let d = reduce::lemma_reduced_from(ds, known, n as nat, ds.len() as int, i);
        let q = speakers(game)[d];
        board::lemma_scan(speaks_test(game), game.width, game.height);
        board::lemma_neighbours(q.0 as int, q.1 as int, game.width, game.height);
        lemma_covers_ascends(game, game.around(q.0 as int, q.1 as int));
        assert(ds[d].cells == covers(game, game.around(q.0 as int, q.1 as int)));
        reduce::lemma_renumbered_ascends(ds[d].cells, known, n);
    }
}

/// Whether more mines are left than cells to put them in.
pub fn no_problem(game: &Minesweeper) -> (none: bool)
    requires
        game.wf(),
    ensures
        none == (mines_left(*game) > unopened(*game).len()),
{
    let list: Vec<(usize, usize)> = list_unopened(game);
    count_mines_left(game) > list.len()
}

/// What a solve is said to take is at least what its lists hold: two words for each open cell
/// and each proven mine, and one for each cell that a number counts. More of any takes more.
pub proof fn law_memory_covers_the_problem(small: SimSetup, large: SimSetup)
    requires
        small.hidden_cells@.len() <= large.hidden_cells@.len(),
        small.certain_mines@.len() <= large.certain_mines@.len(),
        small.constraints@.len() <= large.constraints@.len(),
        counted_cells(layouts::demands(small.constraints@), small.constraints@.len() as int)
            <= counted_cells(layouts::demands(large.constraints@), large.constraints@.len() as int),
    ensures
        memory(small) >= 16 * small.hidden_cells@.len() + 16 * small.certain_mines@.len() + 8
            * counted_cells(
            layouts::demands(small.constraints@),
            small.constraints@.len() as int,
        ),
        memory(small) <= memory(large),
        small.hidden_cells@.len() < large.hidden_cells@.len() ==> memory(small) < memory(large),
{
}

} // verus!
