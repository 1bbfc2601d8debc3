//! Estimates for every cell of a board.

use vstd::prelude::*;
use crate::big_nat::BigNat;
use crate::board;
use crate::board::Minesweeper;
use crate::counting;
use crate::probability::propagate;
use crate::probability::reduce;
use crate::probability::setup;
use crate::probability::setup::SimSetup;

verus! {

/// How likely each cell is a mine, as a share of weighed layouts.
pub struct Estimate {
    /// The weight of all layouts; never zero.
    pub total: BigNat,
    /// `mines[y][x]`: the weight of those that put a mine there.
    pub mines: Vec<Vec<BigNat>>,
}

impl Estimate {
    /// A grid of the given size.
    pub open spec fn wf(self, width: int, height: int) -> bool {
        &&& self.total.wf()
        &&& self.total@ > 0
        &&& self.mines@.len() == height
        &&& forall|y: int| 0 <= y < height ==> (#[trigger] self.mines@[y])@.len() == width
        &&& forall|x: int, y: int|
            0 <= x < width && 0 <= y < height ==> (#[trigger] self.mines@[y]@[x]).wf()
    }

    /// The weight on one cell.
    pub open spec fn at(self, x: int, y: int) -> nat {
        self.mines@[y]@[x]@
    }

    /// Whether two estimates of a board say the same.
    pub open spec fn same(self, other: Estimate, width: int, height: int) -> bool {
        &&& self.total@ == other.total@
        &&& forall|x: int, y: int|
            0 <= x < width && 0 <= y < height ==> #[trigger] self.at(x, y) == other.at(x, y)
    }

    /// The same estimate again.
    pub fn copy(&self, width: usize, height: usize) -> (estimate: Self)
        requires
            self.wf(width as int, height as int),
        ensures
            estimate.wf(width as int, height as int),
            estimate.same(*self, width as int, height as int),
    {
        let mut mines: Vec<Vec<BigNat>> = Vec::new();
        for y in 0..height
            invariant
                self.wf(width as int, height as int),
                mines@.len() == y,
                forall|j: int| 0 <= j < y ==> (#[trigger] mines@[j])@.len() == width,
                forall|i: int, j: int|
                    0 <= i < width && 0 <= j < y ==> (#[trigger] mines@[j]@[i]).wf()
                        && mines@[j]@[i]@ == self.at(i, j),
        {
            let mut row: Vec<BigNat> = Vec::new();
            for x in 0..width
                invariant
                    self.wf(width as int, height as int),
                    y < height,
                    row@.len() == x,
                    forall|i: int|
                        0 <= i < x ==> (#[trigger] row@[i]).wf() && row@[i]@ == self.at(
                            i,
                            y as int,
                        ),
            {
                assert(self.mines@[y as int]@.len() == width);
                assert(self.mines@[y as int]@[x as int].wf());
                row.push(self.mines[y][x].copy());
            }
            mines.push(row);
        }
        let estimate = Estimate { total: self.total.copy(), mines };
        assert forall|x: int, y: int|
            0 <= x < width && 0 <= y < height implies #[trigger] estimate.at(x, y) == self.at(
            x,
            y,
        ) by {
            assert(mines@[y]@[x].wf());
        }
        estimate
    }

    /// The estimate before anything is known: every cell is as likely a mine as any
    /// other.
    pub fn uniform(width: usize, height: usize, mines: usize) -> (estimate: Self)
        requires
            0 < width * height <= u64::MAX,
        ensures
            estimate.wf(width as int, height as int),
            estimate.total@ == width * height,
            forall|x: int, y: int|
                0 <= x < width && 0 <= y < height ==> #[trigger] estimate.at(x, y) == mines,
    {
        let mut grid: Vec<Vec<BigNat>> = Vec::new();
        for y in 0..height
            invariant
                grid@.len() == y,
                forall|j: int| 0 <= j < y ==> (#[trigger] grid@[j])@.len() == width,
                forall|i: int, j: int|
                    0 <= i < width && 0 <= j < y ==> (#[trigger] grid@[j]@[i]).wf()
                        && grid@[j]@[i]@ == mines,
        {
            let mut row: Vec<BigNat> = Vec::new();
            for x in 0..width
                invariant
                    row@.len() == x,
                    forall|i: int| 0 <= i < x ==> (#[trigger] row@[i]).wf() && row@[i]@ == mines,
            {
                row.push(BigNat::from_u64(mines as u64));
            }
            grid.push(row);
        }
        let total: BigNat = BigNat::from_u64(width as u64 * height as u64);
        let estimate = Estimate { total, mines: grid };
        assert forall|x: int, y: int|
            0 <= x < width && 0 <= y < height implies #[trigger] estimate.at(x, y) == mines by {
            assert(grid@[y]@[x].wf());
        }
        estimate
    }
}

/// What a cell is reported as: a certain mine in all layouts, an open question as
/// counted, anything else in none.
pub open spec fn reported(
    setup: SimSetup,
    counts: Seq<nat>,
    total: nat,
    p: (usize, usize),
) -> nat {
    if setup.certain_mines@.contains(p) {
        if total == 0 {
            1
        } else {
            total
        }
    } else if total > 0 && setup.hidden_cells@.contains(p) {
        counts[setup::index_in(setup.hidden_cells@, p)]
    } else {
        0
    }
}

/// Whether the cells of a problem lie on a board, and no open one is listed twice.
pub open spec fn fits(setup: SimSetup, width: int, height: int) -> bool {
    &&& setup.hidden_cells@.no_duplicates()
    &&& forall|i: int|
        0 <= i < setup.hidden_cells@.len() ==> (#[trigger] setup.hidden_cells@[i]).0 < width
            && setup.hidden_cells@[i].1 < height
    &&& forall|i: int|
        0 <= i < setup.certain_mines@.len() ==> (#[trigger] setup.certain_mines@[i]).0 < width
            && setup.certain_mines@[i].1 < height
}

/// The problem of a board fits it.
pub proof fn lemma_fits(game: Minesweeper, set_up: SimSetup)
    requires
        set_up.describes(game),
        setup::unopened(game).len() <= usize::MAX,
    ensures
        fits(set_up, game.width as int, game.height as int),
{
    let list = setup::unopened(game);
    let n = list.len() as usize;
    let known = setup::board_known(game);
    setup::lemma_board_demands(game);
    propagate::law_propagation_reaches_a_fixpoint(
        n as nat,
        setup::board_demands(game),
        setup::mines_left(game),
    );
    board::lemma_scan(setup::unopened_test(game), game.width, game.height);
    reduce::lemma_kept(known, n);
    propagate::lemma_listed(known.mines, n);
    let kept = reduce::kept(known, n as nat);
    let hidden = set_up.hidden_cells@;
    assert forall|i: int, j: int|
        0 <= i < hidden.len() && 0 <= j < hidden.len() && i != j implies hidden[i] != hidden[j] by {
        let a = kept[i] as int;
        let b = kept[j] as int;
        assert(a != b) by {
            if i < j {
                assert(kept[i] != kept[j]);
            } else {
                assert(kept[j] != kept[i]);
            }
        }
        if a < b {
            assert(board::earlier(list[a], list[b]));
        } else {
            assert(board::earlier(list[b], list[a]));
        }
    }
    assert forall|i: int| 0 <= i < hidden.len() implies (#[trigger] hidden[i]).0 < game.width
        && hidden[i].1 < game.height by {
        assert(hidden[i] == list[kept[i] as int]);
    }
    let named = propagate::listed(known.mines, n as int);
    assert forall|i: int| 0 <= i < set_up.certain_mines@.len() implies (
    #[trigger] set_up.certain_mines@[i]).0 < game.width && set_up.certain_mines@[i].1
        < game.height by {
        assert(set_up.certain_mines@[i] == list[named[i] as int]);
    }
}

/// A grid of zeros.
fn zero_grid(width: usize, height: usize) -> (grid: Vec<Vec<BigNat>>)
    ensures
        grid@.len() == height,
        forall|y: int| 0 <= y < height ==> (#[trigger] grid@[y])@.len() == width,
        forall|x: int, y: int|
            0 <= x < width && 0 <= y < height ==> (#[trigger] grid@[y]@[x]).wf() && grid@[y]@[x]@
                == 0,
{
    let mut grid: Vec<Vec<BigNat>> = Vec::new();
    for y in 0..height
        invariant
            grid@.len() == y,
            forall|j: int| 0 <= j < y ==> (#[trigger] grid@[j])@.len() == width,
            forall|i: int, j: int|
                0 <= i < width && 0 <= j < y ==> (#[trigger] grid@[j]@[i]).wf() && grid@[j]@[i]@
                    == 0,
    {
        let mut row: Vec<BigNat> = Vec::new();
        for x in 0..width
            invariant
                row@.len() == x,
                forall|i: int| 0 <= i < x ==> (#[trigger] row@[i]).wf() && row@[i]@ == 0,
        {
            row.push(BigNat::zero());
        }
        grid.push(row);
    }
    grid
}

/// The estimate that says nothing is a mine, for boards without a problem to solve.
pub fn empty_estimate(width: usize, height: usize) -> (estimate: Estimate)
    ensures
        estimate.wf(width as int, height as int),
        estimate.total@ == 1,
        forall|x: int, y: int|
            0 <= x < width && 0 <= y < height ==> #[trigger] estimate.at(x, y) == 0,
{
    Estimate { total: BigNat::from_u64(1), mines: zero_grid(width, height) }
}

/// Puts one number on a grid.
fn put(grid: &mut Vec<Vec<BigNat>>, p: (usize, usize), value: BigNat)
    requires
        p.1 < old(grid)@.len(),
        p.0 < old(grid)@[p.1 as int]@.len(),
    ensures
        final(grid)@.len() == old(grid)@.len(),
        forall|y: int|
            0 <= y < old(grid)@.len() ==> (#[trigger] final(grid)@[y])@.len() == old(grid)@[y]@.len(),
        forall|x: int, y: int|
            0 <= y < old(grid)@.len() && 0 <= x < old(grid)@[y]@.len() ==> #[trigger] final(grid)@[y]@[x] == if x == p.0 && y == p.1 {
                value
            } else {
                old(grid)@[y]@[x]
            },
{
    grid[p.1][p.0] = value;
}

/// Spreads the counts of a problem over a board.
pub fn build_probs(
    mine_counts: &Vec<BigNat>,
    total_weight: &BigNat,
    set_up: &SimSetup,
    width: usize,
    height: usize,
) -> (estimate: Estimate)
    requires
        fits(*set_up, width as int, height as int),
        mine_counts@.len() == set_up.hidden_cells@.len(),
        counting::poly_wf(mine_counts@),
        total_weight.wf(),
    ensures
        estimate.wf(width as int, height as int),
        estimate.total@ == if total_weight@ == 0 {
            1
        } else {
            total_weight@
        },
        forall|x: int, y: int|
            0 <= x < width && 0 <= y < height ==> #[trigger] estimate.at(x, y) == reported(
                *set_up,
                counting::poly(mine_counts@),
                total_weight@,
                (x as usize, y as usize),
            ),
{
    let ghost counts = counting::poly(mine_counts@);
    let mut grid: Vec<Vec<BigNat>> = zero_grid(width, height);
    let none: bool = total_weight.is_zero();
    if !none {
        for i in 0..set_up.hidden_cells.len()
            invariant
                fits(*set_up, width as int, height as int),
                mine_counts@.len() == set_up.hidden_cells@.len(),
                counting::poly_wf(mine_counts@),
                counts == counting::poly(mine_counts@),
                grid@.len() == height,
                forall|y: int| 0 <= y < height ==> (#[trigger] grid@[y])@.len() == width,
                forall|x: int, y: int|
                    0 <= x < width && 0 <= y < height ==> (#[trigger] grid@[y]@[x]).wf()
                        && grid@[y]@[x]@ == spread(
                        *set_up,
                        counts,
                        i as int,
                        (x as usize, y as usize),
                    ),
        {
            let p: (usize, usize) = set_up.hidden_cells[i];
            let ghost before = grid@;
            assert(mine_counts@[i as int].wf());
            assert(before[p.1 as int]@.len() == width);
            put(&mut grid, p, mine_counts[i].copy());
            proof {
                assert forall|x: int, y: int| 0 <= x < width && 0 <= y < height implies (
                #[trigger] grid@[y]@[x]).wf() && grid@[y]@[x]@ == spread(
                    *set_up,
                    counts,
                    i + 1,
                    (x as usize, y as usize),
                ) by {
                    assert(before[y]@.len() == width);
                    assert(before[y]@[x].wf());
                    let q = (x as usize, y as usize);
                    lemma_spread_step(*set_up, counts, i as int, q);
                }
                assert forall|y: int| 0 <= y < height implies (#[trigger] grid@[y])@.len()
                    == width by {
                    assert(before[y]@.len() == width);
                }
            }
        }
    }
    let ghost counted = grid@;
    let certain: BigNat = if none {
        BigNat::from_u64(1)
    } else {
        total_weight.copy()
    };
    assert forall|x: int, y: int| 0 <= x < width && 0 <= y < height implies (
    #[trigger] grid@[y]@[x]).wf() && grid@[y]@[x]@ == marked(
        *set_up,
        counted,
        certain@,
        0,
        (x as usize, y as usize),
    ) by {}
    for i in 0..set_up.certain_mines.len()
        invariant
            fits(*set_up, width as int, height as int),
            certain.wf(),
            grid@.len() == height,
            forall|y: int| 0 <= y < height ==> (#[trigger] grid@[y])@.len() == width,
            forall|x: int, y: int|
                0 <= x < width && 0 <= y < height ==> (#[trigger] grid@[y]@[x]).wf()
                    && grid@[y]@[x]@ == marked(
                    *set_up,
                    counted,
                    certain@,
                    i as int,
                    (x as usize, y as usize),
                ),
    {
        let p: (usize, usize) = set_up.certain_mines[i];
        let ghost before = grid@;
        assert(before[p.1 as int]@.len() == width);
        put(&mut grid, p, certain.copy());
        proof {
            assert forall|x: int, y: int| 0 <= x < width && 0 <= y < height implies (
            #[trigger] grid@[y]@[x]).wf() && grid@[y]@[x]@ == marked(
                *set_up,
                counted,
                certain@,
                i + 1,
                (x as usize, y as usize),
            ) by {
                assert(before[y]@.len() == width);
                assert(before[y]@[x].wf());
                let q = (x as usize, y as usize);
                lemma_take_contains(set_up.certain_mines@, i as int, q);
            }
            assert forall|y: int| 0 <= y < height implies (#[trigger] grid@[y])@.len() == width by {
                assert(before[y]@.len() == width);
            }
        }
    }
    let estimate = Estimate { total: certain, mines: grid };
    proof {
        let hidden = set_up.hidden_cells@;
        assert(set_up.certain_mines@.take(set_up.certain_mines@.len() as int)
            =~= set_up.certain_mines@);
        assert(hidden.take(hidden.len() as int) =~= hidden);
        assert forall|x: int, y: int| 0 <= x < width && 0 <= y < height implies #[trigger] estimate.at(
            x,
            y,
        ) == reported(*set_up, counts, total_weight@, (x as usize, y as usize)) by {
            assert(grid@[y]@[x].wf());
        }
    }
    estimate
}

/// What a cell holds once the first `i` open cells are spread.
spec fn spread(setup: SimSetup, counts: Seq<nat>, i: int, p: (usize, usize)) -> nat {
    if setup.hidden_cells@.take(i).contains(p) {
        counts[setup::index_in(setup.hidden_cells@, p)]
    } else {
        0
    }
}

/// What a cell holds once the first `i` certain mines are marked.
spec fn marked(
    setup: SimSetup,
    counted: Seq<Vec<BigNat>>,
    certain: nat,
    i: int,
    p: (usize, usize),
) -> nat {
    if setup.certain_mines@.take(i).contains(p) {
        certain
    } else {
        counted[p.1 as int]@[p.0 as int]@
    }
}

/// One more entry of a list.
proof fn lemma_take_contains(list: Seq<(usize, usize)>, i: int, p: (usize, usize))
    requires
        0 <= i < list.len(),
    ensures
        list.take(i + 1).contains(p) <==> list.take(i).contains(p) || list[i] == p,
{
    let less = list.take(i);
    let more = list.take(i + 1);
    if less.contains(p) {
        let k = choose|k: int| 0 <= k < less.len() && less[k] == p;
        assert(more[k] == p);
    }
    if list[i] == p {
        assert(more[i] == p);
    }
    if more.contains(p) && list[i] != p {
        let k = choose|k: int| 0 <= k < more.len() && more[k] == p;
        assert(less[k] == p);
    }
}

proof fn lemma_spread_step(setup: SimSetup, counts: Seq<nat>, i: int, p: (usize, usize))
    requires
        setup.hidden_cells@.no_duplicates(),
        0 <= i < setup.hidden_cells@.len(),
    ensures
        spread(setup, counts, i + 1, p) == if p == setup.hidden_cells@[i] {
            counts[i]
        } else {
            spread(setup, counts, i, p)
        },
{
    let list = setup.hidden_cells@;
    lemma_take_contains(list, i, p);
    if p == list[i] {
        let k = setup::index_in(list, p);
        assert(0 <= k < list.len() && list[k] == p);
        assert(k == i);
    }
}

// ---------------------------------------------------------------------------
// Grids of any kind of value
// ---------------------------------------------------------------------------

/// What a cell is given: a certain mine `sure`, an open question its own value, anything
/// else `none`.
pub open spec fn given<T>(
    setup: SimSetup,
    values: Seq<T>,
    none: T,
    sure: T,
    p: (usize, usize),
) -> T {
    if setup.certain_mines@.contains(p) {
        sure
    } else if setup.hidden_cells@.contains(p) {
        values[setup::index_in(setup.hidden_cells@, p)]
    } else {
        none
    }
}

/// Whether a grid has the given size, and each cell the value that it is given.
pub open spec fn scattered<T>(
    grid: Seq<Vec<T>>,
    setup: SimSetup,
    values: Seq<T>,
    none: T,
    sure: T,
    width: int,
    height: int,
) -> bool {
    &&& grid.len() == height
    &&& forall|y: int| 0 <= y < height ==> (#[trigger] grid[y])@.len() == width
    &&& forall|x: int, y: int|
        0 <= x < width && 0 <= y < height ==> #[trigger] grid[y]@[x] == given(
            setup,
            values,
            none,
            sure,
            (x as usize, y as usize),
        )
}

/// A grid with the same value everywhere.
pub fn filled<T: Copy>(value: T, width: usize, height: usize) -> (grid: Vec<Vec<T>>)
    ensures
        grid@.len() == height,
        forall|y: int| 0 <= y < height ==> (#[trigger] grid@[y])@.len() == width,
        forall|x: int, y: int|
            0 <= x < width && 0 <= y < height ==> #[trigger] grid@[y]@[x] == value,
{
    let mut grid: Vec<Vec<T>> = Vec::new();
    for y in 0..height
        invariant
            grid@.len() == y,
            forall|j: int| 0 <= j < y ==> (#[trigger] grid@[j])@.len() == width,
            forall|i: int, j: int|
                0 <= i < width && 0 <= j < y ==> #[trigger] grid@[j]@[i] == value,
    {
        let mut row: Vec<T> = Vec::new();
        for x in 0..width
            invariant
                row@.len() == x,
                forall|i: int| 0 <= i < x ==> #[trigger] row@[i] == value,
        {
            row.push(value);
        }
        grid.push(row);
    }
    grid
}

/// Spreads the values of a problem's open cells over a board.
pub fn scatter<T: Copy>(
    values: &Vec<T>,
    none: T,
    sure: T,
    set_up: &SimSetup,
    width: usize,
    height: usize,
) -> (grid: Vec<Vec<T>>)
    requires
        fits(*set_up, width as int, height as int),
        values@.len() >= set_up.hidden_cells@.len(),
    ensures
        scattered(grid@, *set_up, values@, none, sure, width as int, height as int),
{
    let mut grid: Vec<Vec<T>> = filled(none, width, height);
    let ghost hidden = set_up.hidden_cells@;
    for i in 0..set_up.hidden_cells.len()
        invariant
            hidden == set_up.hidden_cells@,
            fits(*set_up, width as int, height as int),
            values@.len() >= hidden.len(),
            grid@.len() == height,
            forall|y: int| 0 <= y < height ==> (#[trigger] grid@[y])@.len() == width,
            forall|x: int, y: int|
                0 <= x < width && 0 <= y < height ==> #[trigger] grid@[y]@[x]
                    == if hidden.take(i as int).contains((x as usize, y as usize)) {
                    values@[setup::index_in(hidden, (x as usize, y as usize))]
                } else {
                    none
                },
    {
        let p: (usize, usize) = set_up.hidden_cells[i];
        let ghost before = grid@;
        assert(before[p.1 as int]@.len() == width);
        grid[p.1][p.0] = values[i];
        proof {
            assert forall|y: int| 0 <= y < height implies (#[trigger] grid@[y])@.len() == width by {
                assert(before[y]@.len() == width);
            }
            assert forall|x: int, y: int|
                0 <= x < width && 0 <= y < height implies #[trigger] grid@[y]@[x]
                == if hidden.take(i + 1).contains((x as usize, y as usize)) {
                values@[setup::index_in(hidden, (x as usize, y as usize))]
            } else {
                none
            } by {
                let q = (x as usize, y as usize);
                lemma_take_contains(hidden, i as int, q);
                assert(before[y]@.len() == width);
                assert(before[y]@[x] == if hidden.take(i as int).contains(q) {
                    values@[setup::index_in(hidden, q)]
                } else {
                    none
                });
                if q == p {
                    let k = setup::index_in(hidden, q);
                    assert(0 <= k < hidden.len() && hidden[k] == q);
                    assert(k == i);
                }
            }
        }
    }
    let ghost spread = grid@;
    let ghost mines = set_up.certain_mines@;
    for i in 0..set_up.certain_mines.len()
        invariant
            mines == set_up.certain_mines@,
            fits(*set_up, width as int, height as int),
            grid@.len() == height,
            forall|y: int| 0 <= y < height ==> (#[trigger] grid@[y])@.len() == width,
            forall|x: int, y: int|
                0 <= x < width && 0 <= y < height ==> #[trigger] grid@[y]@[x] == if mines.take(
                    i as int,
                ).contains((x as usize, y as usize)) {
                    sure
                } else {
                    spread[y]@[x]
                },
    {
        let p: (usize, usize) = set_up.certain_mines[i];
        let ghost before = grid@;
        assert(before[p.1 as int]@.len() == width);
        grid[p.1][p.0] = sure;
        proof {
            assert forall|y: int| 0 <= y < height implies (#[trigger] grid@[y])@.len() == width by {
                assert(before[y]@.len() == width);
            }
            assert forall|x: int, y: int|
                0 <= x < width && 0 <= y < height implies #[trigger] grid@[y]@[x] == if mines.take(
                i + 1,
            ).contains((x as usize, y as usize)) {
                sure
            } else {
                spread[y]@[x]
            } by {
                let q = (x as usize, y as usize);
                lemma_take_contains(mines, i as int, q);
                assert(before[y]@.len() == width);
                assert(before[y]@[x] == if mines.take(i as int).contains(q) {
                    sure
                } else {
                    spread[y]@[x]
                });
            }
        }
    }
    assert(hidden.take(hidden.len() as int) =~= hidden);
    assert(mines.take(mines.len() as int) =~= mines);
    grid
}

} // verus!
