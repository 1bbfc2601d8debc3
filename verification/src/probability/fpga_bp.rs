//! Belief propagation in fixed point, for boards too large to search.
//!
//! Counting layouts is exact but exponential in the size of a group. Belief
//! propagation passes messages between the unopened cells and the numbers for a
//! fixed number of rounds, in time proportional to the size of the board. It is
//! approximate. Everything is laid out for hardware: arrays with fixed strides,
//! loops with fixed bounds, and fixed-point arithmetic.

use vstd::prelude::*;
use vstd::set_lib::*;
use crate::board;
use crate::board::Minesweeper;
use crate::layouts;
use crate::layouts::Demand;
use crate::probability::estimate;
use crate::probability::propagate;
use crate::probability::reduce;
use crate::probability::setup;
use crate::probability::setup::SimSetup;
use crate::probability::ProbabilityStrategy;

verus! {

/// The most cells a number counts, and the most numbers that count a cell: every
/// cell has at most eight neighbours.
pub const MAX_DEGREE: usize = 8;

/// How many rounds of messages are passed.
pub const BP_ITERS: usize = 50;

// ---------------------------------------------------------------------------
// Fixed point
// ---------------------------------------------------------------------------

/// A fixed-point number with sixteen fractional bits: it stands for its field divided
/// by 65536. Probabilities lie between `0` and `65536`.
#[derive(Clone, Copy, PartialEq, Eq, PartialOrd, Ord, Debug, Structural)]
pub struct Fxp(pub i32);

/// One, in units of the last place.
pub const UNIT: i32 = 65536;

/// The value nearest to `v` between `lo` and `hi`.
pub open spec fn clamped(v: int, lo: int, hi: int) -> int {
    if v < lo {
        lo
    } else if v > hi {
        hi
    } else {
        v
    }
}

/// The sum of two numbers, kept between zero and one.
pub open spec fn fx_sum(a: int, b: int) -> int {
    clamped(a + b, 0, 65536)
}

/// The product of two numbers, rounded down, kept between zero and one.
pub open spec fn fx_product(a: int, b: int) -> int {
    clamped((a * b) / 65536, 0, 65536)
}

impl Fxp {
    /// Whether this is a probability.
    pub open spec fn is_share(self) -> bool {
        0 <= self.0 <= 65536
    }

    /// Zero.
    pub fn zero() -> (x: Self)
        ensures
            x.0 == 0,
    {
        Fxp(0)
    }

    /// One.
    pub fn one() -> (x: Self)
        ensures
            x.0 == 65536,
    {
        Fxp(UNIT)
    }

    /// One half.
    pub fn half() -> (x: Self)
        ensures
            x.0 == 32768,
    {
        Fxp(32768)
    }

    /// The share `part / whole`, rounded to the nearest representable one.
    pub fn from_ratio(part: usize, whole: usize) -> (x: Self)
        requires
            whole > 0,
        ensures
            x.is_share(),
            x.0 == clamped((part * 131072 + whole) / (whole * 2), 0, 65536),
    {
        let top: u128 = (part as u128) * 131072 + (whole as u128);
        let q: u128 = top / ((whole as u128) * 2);
        if q > 65536 {
            Fxp(UNIT)
        } else {
            Fxp(q as i32)
        }
    }

    /// Addition, kept between zero and one.
    pub fn add(self, rhs: Self) -> (x: Self)
        ensures
            x.is_share(),
            x.0 == fx_sum(self.0 as int, rhs.0 as int),
    {
        let sum: i64 = self.0 as i64 + rhs.0 as i64;
        if sum < 0 {
            Fxp(0)
        } else if sum > 65536 {
            Fxp(UNIT)
        } else {
            Fxp(sum as i32)
        }
    }

    /// Multiplication, rounded down and kept between zero and one.
    pub fn mul(self, rhs: Self) -> (x: Self)
        ensures
            x.is_share(),
            x.0 == fx_product(self.0 as int, rhs.0 as int),
    {
        let a: i64 = self.0 as i64;
        let b: i64 = rhs.0 as i64;
        assert(-0x4000_0000_0000_0000 <= a * b <= 0x4000_0000_0000_0000) by (nonlinear_arith)
            requires
                -0x8000_0000 <= a <= 0x7fff_ffff,
                -0x8000_0000 <= b <= 0x7fff_ffff,
        ;
        let p: i64 = a * b;
        if p <= 0 {
            Fxp(0)
        } else {
            let q: i64 = p / 65536;
            if q > 65536 {
                Fxp(UNIT)
            } else {
                Fxp(q as i32)
            }
        }
    }

    /// One minus this number, or zero.
    pub fn complement(self) -> (x: Self)
        requires
            65536 - self.0 <= i32::MAX,
        ensures
            x.0 == if self.0 > 65536 {
                0
            } else {
                65536 - self.0
            },
    {
        let rest: i32 = UNIT - self.0;
        if rest < 0 {
            Fxp(0)
        } else {
            Fxp(rest)
        }
    }

    /// The nearest number between `lo` and `hi`.
    pub fn clamp(self, lo: Self, hi: Self) -> (x: Self)
        ensures
            x.0 == clamped(self.0 as int, lo.0 as int, hi.0 as int),
    {
        if self.0 < lo.0 {
            lo
        } else if self.0 > hi.0 {
            hi
        } else {
            self
        }
    }
}

// ---------------------------------------------------------------------------
// The graph, in arrays with fixed strides
// ---------------------------------------------------------------------------

/// Which numbers count which cells. Entry `i` of entity `e` stands at
/// `e * MAX_DEGREE + i`.
pub struct FlatGraph {
    pub n_cells: usize,
    pub n_constraints: usize,
    /// The cells that each number counts, how many they are, and how many are mines.
    pub c_neighbors: Vec<usize>,
    pub c_degree: Vec<usize>,
    pub c_required: Vec<usize>,
    /// The numbers that count each cell, the cell's place in each, and how many they are.
    pub x_factors: Vec<usize>,
    pub x_factor_local: Vec<usize>,
    pub x_factor_count: Vec<usize>,
    /// The component of each cell, and how many components there are.
    pub x_component: Vec<usize>,
    pub n_components: usize,
}

/// At most `MAX_DEGREE`.
pub open spec fn at_most_degree(n: nat) -> nat {
    if n < 8 {
        n
    } else {
        8
    }
}

/// Where a cell occurs among the first `j` entries of number `ci`.
pub open spec fn row_occurrences(cells: Seq<usize>, c: int, ci: int, j: int) -> Seq<(int, int)>
    decreases j,
{
    if j <= 0 {
        Seq::empty()
    } else {
        let front = row_occurrences(cells, c, ci, j - 1);
        if cells[j - 1] == c {
            front.push((ci, j - 1))
        } else {
            front
        }
    }
}

/// Where a cell occurs in the first `i` numbers: each with the place in it.
pub open spec fn occurrences(ds: Seq<Demand>, c: int, i: int) -> Seq<(int, int)>
    decreases i,
{
    if i <= 0 {
        Seq::empty()
    } else {
        occurrences(ds, c, i - 1) + row_occurrences(
            ds[i - 1].cells,
            c,
            i - 1,
            at_most_degree(ds[i - 1].cells.len()) as int,
        )
    }
}

impl FlatGraph {
    /// The numbers are laid out.
    pub open spec fn lays_out_numbers(self, ds: Seq<Demand>, n: nat) -> bool {
        &&& self.n_cells == n
        &&& self.n_constraints == ds.len()
        &&& self.c_neighbors@.len() == ds.len() * 8
        &&& self.c_degree@.len() == ds.len()
        &&& self.c_required@.len() == ds.len()
        &&& forall|ci: int|
            0 <= ci < ds.len() ==> #[trigger] self.c_degree@[ci] == at_most_degree(
                ds[ci].cells.len(),
            )
        &&& forall|ci: int| 0 <= ci < ds.len() ==> #[trigger] self.c_required@[ci] == ds[ci].mines
        &&& forall|ci: int, j: int|
            0 <= ci < ds.len() && 0 <= j < at_most_degree(ds[ci].cells.len())
                ==> self.c_neighbors@[ci * 8 + j] == #[trigger] ds[ci].cells[j]
    }

    /// The cells' occurrences are laid out.
    pub open spec fn lays_out_cells(self, ds: Seq<Demand>, n: nat) -> bool {
        &&& self.x_factors@.len() == n * 8
        &&& self.x_factor_local@.len() == n * 8
        &&& self.x_factor_count@.len() == n
        &&& forall|c: int|
            0 <= c < n ==> #[trigger] self.x_factor_count@[c] == at_most_degree(
                occurrences(ds, c, ds.len() as int).len(),
            )
        &&& forall|c: int, k: int|
            #![trigger occurrences(ds, c, ds.len() as int)[k]]
            0 <= c < n && 0 <= k < at_most_degree(occurrences(ds, c, ds.len() as int).len()) ==> {
                &&& self.x_factors@[c * 8 + k] == occurrences(ds, c, ds.len() as int)[k].0
                &&& self.x_factor_local@[c * 8 + k] == occurrences(ds, c, ds.len() as int)[k].1
            }
    }
}

/// An occurrence names a number and a place in it where the cell stands.
pub proof fn lemma_occurrences(ds: Seq<Demand>, c: int, i: int)
    requires
        0 <= i <= ds.len(),
    ensures
        forall|k: int|
            0 <= k < occurrences(ds, c, i).len() ==> {
                let at = #[trigger] occurrences(ds, c, i)[k];
                &&& 0 <= at.0 < i
                &&& 0 <= at.1 < at_most_degree(ds[at.0].cells.len())
                &&& ds[at.0].cells[at.1] == c
            },
    decreases i,
{
    if i > 0 {
        lemma_occurrences(ds, c, i - 1);
        let len = at_most_degree(ds[i - 1].cells.len()) as int;
        lemma_row_occurrences(ds[i - 1].cells, c, i - 1, len);
        let front = occurrences(ds, c, i - 1);
        let row = row_occurrences(ds[i - 1].cells, c, i - 1, len);
        let all = occurrences(ds, c, i);
        assert forall|k: int| 0 <= k < all.len() implies {
            let at = #[trigger] all[k];
            &&& 0 <= at.0 < i
            &&& 0 <= at.1 < at_most_degree(ds[at.0].cells.len())
            &&& ds[at.0].cells[at.1] == c
        } by {
            if k < front.len() {
                assert(all[k] == front[k]);
            } else {
                assert(all[k] == row[k - front.len()]);
            }
        }
    }
}

proof fn lemma_row_occurrences(cells: Seq<usize>, c: int, ci: int, j: int)
    requires
        0 <= j <= cells.len(),
    ensures
        forall|k: int|
            0 <= k < row_occurrences(cells, c, ci, j).len() ==> {
                let at = #[trigger] row_occurrences(cells, c, ci, j)[k];
                at.0 == ci && 0 <= at.1 < j && cells[at.1] == c
            },
    decreases j,
{
    if j > 0 {
        lemma_row_occurrences(cells, c, ci, j - 1);
        let front = row_occurrences(cells, c, ci, j - 1);
        let all = row_occurrences(cells, c, ci, j);
        assert forall|k: int| 0 <= k < all.len() implies {
            let at = #[trigger] all[k];
            at.0 == ci && 0 <= at.1 < j && cells[at.1] == c
        } by {
            if k < front.len() {
                assert(all[k] == front[k]);
            }
        }
    }
}

/// A row of `n` zeros.
fn zeros(n: usize) -> (row: Vec<usize>)
    ensures
        row@.len() == n,
        forall|i: int| 0 <= i < n ==> #[trigger] row@[i] == 0,
{
    let mut row: Vec<usize> = Vec::new();
    for i in 0..n
        invariant
            row@.len() == i,
            forall|k: int| 0 <= k < i ==> #[trigger] row@[k] == 0,
    {
        row.push(0);
    }
    row
}

/// What is known of the cells' arrays once some occurrences are entered: `seen` gives
/// those of each cell.
spec fn entered(
    factors: Seq<usize>,
    local: Seq<usize>,
    count: Seq<usize>,
    n: nat,
    seen: spec_fn(int) -> Seq<(int, int)>,
) -> bool {
    &&& factors.len() == n * 8
    &&& local.len() == n * 8
    &&& count.len() == n
    &&& forall|c: int| 0 <= c < n ==> #[trigger] count[c] == at_most_degree(seen(c).len())
    &&& forall|c: int, k: int|
        #![trigger seen(c)[k]]
        0 <= c < n && 0 <= k < at_most_degree(seen(c).len()) ==> factors[c * 8 + k]
            == seen(c)[k].0 && local[c * 8 + k] == seen(c)[k].1
}

impl FlatGraph {
    /// Lays out numbers and cells, and finds the components.
    pub fn build(constraints: &Vec<(Vec<usize>, usize)>, n_cells: usize) -> (graph: Self)
        requires
            propagate::proper_demands(layouts::demands(constraints@), n_cells as nat),
            constraints@.len() * 8 <= usize::MAX,
            n_cells * 8 <= usize::MAX,
        ensures
            graph.lays_out_numbers(layouts::demands(constraints@), n_cells as nat),
            graph.lays_out_cells(layouts::demands(constraints@), n_cells as nat),
            graph.labels_components(layouts::demands(constraints@), n_cells as nat),
            (forall|ci: int|
                0 <= ci < constraints@.len() ==> (#[trigger] constraints@[ci]).1 <= 8)
                ==> graph.wf(),
    {
        let nc: usize = constraints.len();
        let ghost ds = layouts::demands(constraints@);
        let mut c_neighbors: Vec<usize> = zeros(nc * MAX_DEGREE);
        let mut c_degree: Vec<usize> = zeros(nc);
        let mut c_required: Vec<usize> = zeros(nc);
        for ci in 0..nc
            invariant
                nc == constraints@.len(),
                nc * 8 <= usize::MAX,
                ds == layouts::demands(constraints@),
                c_neighbors@.len() == nc * 8,
                c_degree@.len() == nc,
                c_required@.len() == nc,
                forall|i: int|
                    0 <= i < ci ==> #[trigger] c_degree@[i] == at_most_degree(ds[i].cells.len()),
                forall|i: int| 0 <= i < ci ==> #[trigger] c_required@[i] == ds[i].mines,
                forall|i: int, j: int|
                    0 <= i < ci && 0 <= j < at_most_degree(ds[i].cells.len())
                        ==> c_neighbors@[i * 8 + j] == #[trigger] ds[i].cells[j],
        {
            let cells: &Vec<usize> = &constraints[ci].0;
            assert(cells@ == ds[ci as int].cells);
            let degree: usize = if cells.len() < MAX_DEGREE {
                cells.len()
            } else {
                MAX_DEGREE
            };
            c_degree.set(ci, degree);
            c_required.set(ci, constraints[ci].1);
            for j in 0..degree
                invariant
                    nc == constraints@.len(),
                    nc * 8 <= usize::MAX,
                    ci < nc,
                    ds == layouts::demands(constraints@),
                    cells@ == ds[ci as int].cells,
                    degree == at_most_degree(cells@.len()),
                    c_neighbors@.len() == nc * 8,
                    forall|i: int, k: int|
                        (0 <= i < ci && 0 <= k < at_most_degree(ds[i].cells.len()) || i == ci && 0
                            <= k < j) ==> c_neighbors@[i * 8 + k] == #[trigger] ds[i].cells[k],
            {
                c_neighbors.set(ci * MAX_DEGREE + j, cells[j]);
            }
        }
        let mut x_factors: Vec<usize> = zeros(n_cells * MAX_DEGREE);
        let mut x_factor_local: Vec<usize> = zeros(n_cells * MAX_DEGREE);
        let mut x_factor_count: Vec<usize> = zeros(n_cells);
        for ci in 0..nc
            invariant
                nc == constraints@.len(),
                n_cells * 8 <= usize::MAX,
                ds == layouts::demands(constraints@),
                propagate::proper_demands(ds, n_cells as nat),
                entered(
                    x_factors@,
                    x_factor_local@,
                    x_factor_count@,
                    n_cells as nat,
                    |c: int| occurrences(ds, c, ci as int),
                ),
        {
            let cells: &Vec<usize> = &constraints[ci].0;
            assert(cells@ == ds[ci as int].cells);
            assert(layouts::distinct_below(ds[ci as int].cells, n_cells as nat));
            let degree: usize = if cells.len() < MAX_DEGREE {
                cells.len()
            } else {
                MAX_DEGREE
            };
            enter_row(
                &mut x_factors,
                &mut x_factor_local,
                &mut x_factor_count,
                n_cells,
                cells,
                ci,
                degree,
                Ghost(ds),
            );
        }
        proof {
            let seen = |c: int| occurrences(ds, c, nc as int);
            assert forall|c: int, k: int|
                #![trigger occurrences(ds, c, ds.len() as int)[k]]
                0 <= c < n_cells && 0 <= k < at_most_degree(
                    occurrences(ds, c, ds.len() as int).len(),
                ) implies {
                &&& x_factors@[c * 8 + k] == occurrences(ds, c, ds.len() as int)[k].0
                &&& x_factor_local@[c * 8 + k] == occurrences(ds, c, ds.len() as int)[k].1
            } by {
                assert(seen(c)[k] == occurrences(ds, c, ds.len() as int)[k]);
            }
            assert forall|c: int| 0 <= c < n_cells implies #[trigger] x_factor_count@[c]
                == at_most_degree(occurrences(ds, c, ds.len() as int).len()) by {
                assert(seen(c) == occurrences(ds, c, ds.len() as int));
            }
        }
        let (x_component, n_components): (Vec<usize>, usize) = component_decompose(
            n_cells,
            nc,
            &c_neighbors,
            &c_degree,
            &x_factor_count,
            &x_factors,
            Ghost(ds),
        );
        let graph = FlatGraph {
            n_cells,
            n_constraints: nc,
            c_neighbors,
            c_degree,
            c_required,
            x_factors,
            x_factor_local,
            x_factor_count,
            x_component,
            n_components,
        };
        proof {
            if forall|ci: int| 0 <= ci < constraints@.len() ==> (#[trigger] constraints@[ci]).1
                <= 8 {
                assert forall|ci: int| 0 <= ci < ds.len() implies (#[trigger] ds[ci]).mines <= 8 by {
                    assert(constraints@[ci].1 <= 8);
                }
                lemma_graph_wf(graph, ds, n_cells as nat);
            }
        }
        graph
    }
}

/// A graph that is laid out right refers to itself properly.
proof fn lemma_graph_wf(graph: FlatGraph, ds: Seq<Demand>, n: nat)
    requires
        propagate::proper_demands(ds, n),
        graph.lays_out_numbers(ds, n),
        graph.lays_out_cells(ds, n),
        forall|ci: int| 0 <= ci < ds.len() ==> (#[trigger] ds[ci]).mines <= 8,
    ensures
        graph.wf(),
{
    assert forall|ci: int| 0 <= ci < ds.len() implies (#[trigger] graph.c_required@[ci]) <= 8 by {
        assert(ds[ci].mines <= 8);
    }
    assert forall|ci: int, j: int|
        0 <= ci < ds.len() && 0 <= j < graph.c_degree@[ci] implies #[trigger] graph.cells(ci)[j]
        < n by {
        assert(graph.c_degree@[ci] == at_most_degree(ds[ci].cells.len()));
        assert(layouts::distinct_below(ds[ci].cells, n));
        assert(graph.c_neighbors@[ci * 8 + j] == ds[ci].cells[j]);
    }
    assert forall|c: int, k: int|
        #![trigger graph.x_factors@[c * 8 + k]]
        0 <= c < n && 0 <= k < graph.x_factor_count@[c] implies {
        &&& graph.x_factors@[c * 8 + k] < graph.n_constraints
        &&& graph.x_factor_local@[c * 8 + k] < graph.c_degree@[graph.x_factors@[c * 8 + k] as int]
    } by {
        let all = occurrences(ds, c, ds.len() as int);
        assert(graph.x_factor_count@[c] == at_most_degree(all.len()));
        lemma_occurrences(ds, c, ds.len() as int);
        let at = all[k];
        assert(graph.c_degree@[at.0] == at_most_degree(ds[at.0].cells.len()));
    }
}

/// Enters the occurrences of one number.
fn enter_row(
    factors: &mut Vec<usize>,
    local: &mut Vec<usize>,
    count: &mut Vec<usize>,
    n_cells: usize,
    cells: &Vec<usize>,
    ci: usize,
    degree: usize,
    Ghost(ds): Ghost<Seq<Demand>>,
)
    requires
        n_cells * 8 <= usize::MAX,
        ci < ds.len(),
        cells@ == ds[ci as int].cells,
        degree == at_most_degree(cells@.len()),
        layouts::distinct_below(cells@, n_cells as nat),
        entered(
            old(factors)@,
            old(local)@,
            old(count)@,
            n_cells as nat,
            |c: int| occurrences(ds, c, ci as int),
        ),
    ensures
        entered(
            final(factors)@,
            final(local)@,
            final(count)@,
            n_cells as nat,
            |c: int| occurrences(ds, c, ci + 1),
        ),
{
    let ghost base = |c: int| occurrences(ds, c, ci as int);
    assert(entered(
        factors@,
        local@,
        count@,
        n_cells as nat,
        |c: int| base(c) + row_occurrences(cells@, c, ci as int, 0),
    )) by {
        let now = |c: int| base(c) + row_occurrences(cells@, c, ci as int, 0);
        assert forall|c: int| #[trigger] now(c) == base(c) by {
            assert(now(c) =~= base(c));
        }
    }
    for j in 0..degree
        invariant
            n_cells * 8 <= usize::MAX,
            degree <= cells@.len(),
            layouts::distinct_below(cells@, n_cells as nat),
            base == |c: int| occurrences(ds, c, ci as int),
            entered(
                factors@,
                local@,
                count@,
                n_cells as nat,
                |c: int| base(c) + row_occurrences(cells@, c, ci as int, j as int),
            ),
    {
        let cell: usize = cells[j];
        let ghost seen = |c: int| base(c) + row_occurrences(cells@, c, ci as int, j as int);
        let ghost next = |c: int| base(c) + row_occurrences(cells@, c, ci as int, j + 1);
        let ghost f0 = factors@;
        let ghost c0 = count@;
        let at: usize = count[cell];
        proof {
            assert(c0[cell as int] == at_most_degree(seen(cell as int).len()));
            assert forall|c: int| 0 <= c < n_cells && c != cell implies #[trigger] next(c) == seen(
                c,
            ) by {}
            assert(next(cell as int) =~= seen(cell as int).push((ci as int, j as int)));
        }
        if at < MAX_DEGREE {
            factors.set(cell * MAX_DEGREE + at, ci);
            local.set(cell * MAX_DEGREE + at, j);
            count.set(cell, at + 1);
        }
        proof {
            assert forall|c: int| 0 <= c < n_cells implies #[trigger] count@[c] == at_most_degree(
                next(c).len(),
            ) by {
                assert(c0[c] == at_most_degree(seen(c).len()));
            }
            assert forall|c: int, k: int|
                #![trigger next(c)[k]]
                0 <= c < n_cells && 0 <= k < at_most_degree(next(c).len()) implies factors@[c * 8
                + k] == next(c)[k].0 && local@[c * 8 + k] == next(c)[k].1 by {
                if k < at_most_degree(seen(c).len()) {
                    assert(next(c)[k] == seen(c)[k]);
                    assert(f0[c * 8 + k] == seen(c)[k].0);
                    if at < 8 {
                        assert(c * 8 + k != cell * 8 + at);
                    }
                }
            }
        }
    }
    proof {
        let now = |c: int| base(c) + row_occurrences(cells@, c, ci as int, degree as int);
        let done = |c: int| occurrences(ds, c, ci + 1);
        assert forall|c: int| #[trigger] done(c) == now(c) by {}
    }
}

// ---------------------------------------------------------------------------
// Components
// ---------------------------------------------------------------------------

/// The numbers entered for a cell.
pub open spec fn entered_numbers(ds: Seq<Demand>, c: int) -> Seq<(int, int)> {
    let all = occurrences(ds, c, ds.len() as int);
    all.take(at_most_degree(all.len()) as int)
}

/// Whether number `ci` is entered for cell `a` and counts cell `b`.
pub open spec fn via(ds: Seq<Demand>, ci: int, a: int, b: int) -> bool {
    &&& 0 <= ci < ds.len()
    &&& exists|k: int|
        0 <= k < entered_numbers(ds, a).len() && (#[trigger] entered_numbers(ds, a)[k]).0 == ci
    &&& exists|j: int|
        0 <= j < at_most_degree(ds[ci].cells.len()) && #[trigger] ds[ci].cells[j] == b
}

/// Whether some number leads from one cell to another.
pub open spec fn next_to(ds: Seq<Demand>, a: int, b: int) -> bool {
    exists|ci: int| #[trigger] via(ds, ci, a, b)
}

/// A walk from cell to cell.
pub open spec fn walk(ds: Seq<Demand>, path: Seq<int>) -> bool {
    &&& path.len() > 0
    &&& forall|i: int|
        #![trigger path[i]]
        0 <= i < path.len() - 1 ==> next_to(ds, path[i], path[i + 1])
}

/// Whether a walk leads from one cell to another.
pub open spec fn reaches(ds: Seq<Demand>, a: int, b: int) -> bool {
    exists|path: Seq<int>| #[trigger] walk(ds, path) && path[0] == a && path.last() == b
}

/// Whether a component is found starting at a cell: a number counts it, and no earlier
/// such cell reaches it.
pub open spec fn is_root(ds: Seq<Demand>, c: int) -> bool {
    &&& occurrences(ds, c, ds.len() as int).len() > 0
    &&& forall|d: int|
        0 <= d < c && occurrences(ds, d, ds.len() as int).len() > 0 ==> !#[trigger] reaches(
            ds,
            d,
            c,
        )
}

/// How many components start below cell `i`.
pub open spec fn roots_below(ds: Seq<Demand>, i: int) -> nat
    decreases i,
{
    if i <= 0 {
        0
    } else {
        roots_below(ds, i - 1) + if is_root(ds, i - 1) {
            1nat
        } else {
            0nat
        }
    }
}

/// Whether a component of some cells is found first from `r`.
pub open spec fn found_from(ds: Seq<Demand>, r: int, c: int) -> bool {
    &&& is_root(ds, r)
    &&& reaches(ds, r, c)
    &&& forall|q: int| 0 <= q < r && #[trigger] is_root(ds, q) ==> !reaches(ds, q, c)
}

impl FlatGraph {
    /// Components are numbered in the order of their first cells, and every cell of a
    /// component carries its number. A cell that no number counts carries zero.
    pub open spec fn labels_components(self, ds: Seq<Demand>, n: nat) -> bool {
        &&& self.n_components == roots_below(ds, n as int)
        &&& self.x_component@.len() == n
        &&& forall|r: int, c: int|
            0 <= r < n && 0 <= c < n && #[trigger] found_from(ds, r, c) ==> self.x_component@[c]
                == roots_below(ds, r)
        &&& forall|c: int|
            0 <= c < n && occurrences(ds, c, ds.len() as int).len() == 0
                ==> #[trigger] self.x_component@[c] == 0
    }
}

/// An entered number is one of the numbers.
proof fn lemma_entered(ds: Seq<Demand>, c: int, k: int)
    requires
        0 <= k < entered_numbers(ds, c).len(),
    ensures
        0 <= entered_numbers(ds, c)[k].0 < ds.len(),
{
    lemma_occurrences(ds, c, ds.len() as int);
    assert(entered_numbers(ds, c)[k] == occurrences(ds, c, ds.len() as int)[k]);
}

proof fn lemma_reaches_self(ds: Seq<Demand>, a: int)
    ensures
        reaches(ds, a, a),
{
    let path = seq![a];
    assert(walk(ds, path) && path[0] == a && path.last() == a);
}

proof fn lemma_reaches_on(ds: Seq<Demand>, a: int, b: int, c: int)
    requires
        reaches(ds, a, b),
        next_to(ds, b, c),
    ensures
        reaches(ds, a, c),
{
    let path = choose|path: Seq<int>| #[trigger]
        walk(ds, path) && path[0] == a && path.last() == b;
    let more = path.push(c);
    assert(walk(ds, more)) by {
        assert forall|i: int| #![trigger more[i]] 0 <= i < more.len() - 1 implies next_to(
            ds,
            more[i],
            more[i + 1],
        ) by {
            assert(more[i] == path[i]);
            if i < path.len() - 1 {
                assert(more[i + 1] == path[i + 1]);
            }
        }
    }
    assert(more[0] == a && more.last() == c);
}

proof fn lemma_reaches_join(ds: Seq<Demand>, a: int, b: int, c: int)
    requires
        reaches(ds, a, b),
        reaches(ds, b, c),
    ensures
        reaches(ds, a, c),
{
    let p = choose|path: Seq<int>| #[trigger]
        walk(ds, path) && path[0] == a && path.last() == b;
    let q = choose|path: Seq<int>| #[trigger]
        walk(ds, path) && path[0] == b && path.last() == c;
    let whole = p + q.subrange(1, q.len() as int);
    assert(walk(ds, whole)) by {
        assert forall|i: int| #![trigger whole[i]] 0 <= i < whole.len() - 1 implies next_to(
            ds,
            whole[i],
            whole[i + 1],
        ) by {
            if i < p.len() - 1 {
                assert(whole[i] == p[i] && whole[i + 1] == p[i + 1]);
            } else {
                let k = i - (p.len() - 1);
                assert(whole[i] == q[k] && whole[i + 1] == q[k + 1]);
            }
        }
    }
    assert(whole[0] == a);
    assert(whole.last() == c) by {
        if q.len() == 1 {
            assert(whole.last() == p.last());
        }
    }
}

/// A cell that stands in a number occurs.
proof fn lemma_occurs(ds: Seq<Demand>, c: int, i: int, ci: int, j: int)
    requires
        0 <= ci < i <= ds.len(),
        0 <= j < at_most_degree(ds[ci].cells.len()),
        ds[ci].cells[j] == c,
    ensures
        occurrences(ds, c, i).len() > 0,
    decreases i,
{
    if ci < i - 1 {
        lemma_occurs(ds, c, i - 1, ci, j);
    } else {
        lemma_row_occurs(ds[ci].cells, c, ci, at_most_degree(ds[ci].cells.len()) as int, j);
    }
}

proof fn lemma_row_occurs(cells: Seq<usize>, c: int, ci: int, upto: int, j: int)
    requires
        0 <= j < upto <= cells.len(),
        cells[j] == c,
    ensures
        row_occurrences(cells, c, ci, upto).len() > 0,
    decreases upto,
{
    if j < upto - 1 {
        lemma_row_occurs(cells, c, ci, upto - 1, j);
    }
}

/// No walk from the start of a component leads to a cell that no number counts.
proof fn lemma_uncounted(ds: Seq<Demand>, r: int, c: int)
    requires
        is_root(ds, r),
        reaches(ds, r, c),
    ensures
        occurrences(ds, c, ds.len() as int).len() > 0,
{
    let path = choose|path: Seq<int>| #[trigger]
        walk(ds, path) && path[0] == r && path.last() == c;
    if path.len() > 1 {
        let a = path[path.len() - 2];
        assert(next_to(ds, path[path.len() - 2], path[path.len() - 2 + 1]));
        let ci = choose|ci: int| #[trigger] via(ds, ci, a, c);
        let j = choose|j: int|
            0 <= j < at_most_degree(ds[ci].cells.len()) && #[trigger] ds[ci].cells[j] == c;
        lemma_occurs(ds, c, ds.len() as int, ci, j);
    }
}

/// Every cell that a number counts is reached by the start of a component at or before
/// it.
proof fn lemma_has_root(ds: Seq<Demand>, c: int) -> (r: int)
    requires
        0 <= c,
        occurrences(ds, c, ds.len() as int).len() > 0,
    ensures
        0 <= r <= c,
        is_root(ds, r),
        reaches(ds, r, c),
    decreases c,
{
    lemma_reaches_self(ds, c);
    if is_root(ds, c) {
        c
    } else {
        let d = choose|d: int|
            0 <= d < c && occurrences(ds, d, ds.len() as int).len() > 0 && #[trigger] reaches(
                ds,
                d,
                c,
            );
        let r = lemma_has_root(ds, d);
        lemma_reaches_join(ds, r, d, c);
        r
    }
}

/// A set that every step stays in holds whatever its members reach.
proof fn lemma_closed_holds(ds: Seq<Demand>, set: Set<int>, path: Seq<int>, i: int)
    requires
        walk(ds, path),
        set.contains(path[0]),
        0 <= i < path.len(),
        forall|a: int, b: int| set.contains(a) && #[trigger] next_to(ds, a, b) ==> set.contains(b),
    ensures
        set.contains(path[i]),
    decreases i,
{
    if i > 0 {
        lemma_closed_holds(ds, set, path, i - 1);
        assert(next_to(ds, path[i - 1], path[i - 1 + 1]));
    }
}

/// The arrays that the search for components reads.
spec fn arrays_fit(
    n: nat,
    c_neighbors: Seq<usize>,
    c_degree: Seq<usize>,
    x_factor_count: Seq<usize>,
    x_factors: Seq<usize>,
    ds: Seq<Demand>,
) -> bool {
    &&& propagate::proper_demands(ds, n)
    &&& c_neighbors.len() == ds.len() * 8
    &&& c_degree.len() == ds.len()
    &&& forall|ci: int|
        0 <= ci < ds.len() ==> #[trigger] c_degree[ci] == at_most_degree(ds[ci].cells.len())
    &&& forall|ci: int, j: int|
        0 <= ci < ds.len() && 0 <= j < at_most_degree(ds[ci].cells.len()) ==> c_neighbors[ci * 8
            + j] == #[trigger] ds[ci].cells[j]
    &&& x_factors.len() == n * 8
    &&& x_factor_count.len() == n
    &&& forall|c: int|
        0 <= c < n ==> #[trigger] x_factor_count[c] == at_most_degree(
            occurrences(ds, c, ds.len() as int).len(),
        )
    &&& forall|c: int, k: int|
        #![trigger occurrences(ds, c, ds.len() as int)[k]]
        0 <= c < n && 0 <= k < at_most_degree(occurrences(ds, c, ds.len() as int).len())
            ==> x_factors[c * 8 + k] == occurrences(ds, c, ds.len() as int)[k].0
}

/// Cells seen and numbers seen, while the component that starts at `s` is explored:
/// `before` were seen earlier, `queue` are the component's so far, of which the first
/// `head` are explored.
spec fn exploring(
    ds: Seq<Demand>,
    n: nat,
    seen: Seq<bool>,
    done: Seq<bool>,
    before: Set<int>,
    s: int,
    queue: Seq<usize>,
    head: int,
) -> bool {
    &&& seen.len() == n
    &&& done.len() == ds.len()
    &&& propagate::set_flags(seen) =~= before.union(layouts::cell_set(queue))
    &&& layouts::distinct_below(queue, n)
    &&& layouts::cell_set(queue).disjoint(before)
    &&& queue.len() > 0
    &&& queue[0] == s
    &&& 0 <= head <= queue.len()
    &&& forall|i: int| 0 <= i < queue.len() ==> reaches(ds, s, #[trigger] queue[i] as int)
    &&& numbers_seen(ds, seen, done)
    &&& forall|a: int, k: int|
        #![trigger entered_numbers(ds, a)[k]]
        before.contains(a) && 0 <= k < entered_numbers(ds, a).len()
            ==> done[entered_numbers(ds, a)[k].0]
    &&& forall|i: int, k: int|
        #![trigger entered_numbers(ds, queue[i] as int)[k]]
        0 <= i < head && 0 <= k < entered_numbers(ds, queue[i] as int).len()
            ==> done[entered_numbers(ds, queue[i] as int)[k].0]
}

/// All cells of the numbers seen are seen.
spec fn numbers_seen(ds: Seq<Demand>, seen: Seq<bool>, done: Seq<bool>) -> bool {
    forall|ci: int, j: int|
        0 <= ci < ds.len() && done[ci] && 0 <= j < at_most_degree(ds[ci].cells.len())
            ==> seen[#[trigger] ds[ci].cells[j] as int]
}

/// Explores one number: its cells that are not seen yet join the queue.
fn explore_number(
    ci: usize,
    degree: usize,
    c_neighbors: &Vec<usize>,
    seen: &mut Vec<bool>,
    queue: &mut Vec<usize>,
    Ghost(ds): Ghost<Seq<Demand>>,
    Ghost(n): Ghost<nat>,
    Ghost(before): Ghost<Set<int>>,
    Ghost(s): Ghost<int>,
    Ghost(from): Ghost<int>,
)
    requires
        propagate::proper_demands(ds, n),
        ci < ds.len(),
        degree == at_most_degree(ds[ci as int].cells.len()),
        c_neighbors@.len() == ds.len() * 8,
        forall|j: int|
            0 <= j < degree ==> c_neighbors@[ci * 8 + j] == #[trigger] ds[ci as int].cells[j],
        old(seen)@.len() == n,
        propagate::set_flags(old(seen)@) =~= before.union(layouts::cell_set(old(queue)@)),
        layouts::distinct_below(old(queue)@, n),
        layouts::cell_set(old(queue)@).disjoint(before),
        forall|i: int|
            0 <= i < old(queue)@.len() ==> reaches(ds, s, #[trigger] old(queue)@[i] as int),
        reaches(ds, s, from),
        exists|k: int|
            0 <= k < entered_numbers(ds, from).len() && (#[trigger] entered_numbers(ds, from)[k]).0
                == ci,
    ensures
        final(seen)@.len() == n,
        propagate::set_flags(final(seen)@) =~= before.union(layouts::cell_set(final(queue)@)),
        layouts::distinct_below(final(queue)@, n),
        layouts::cell_set(final(queue)@).disjoint(before),
        old(queue)@.len() <= final(queue)@.len(),
        final(queue)@.take(old(queue)@.len() as int) == old(queue)@,
        forall|i: int|
            0 <= i < final(queue)@.len() ==> reaches(ds, s, #[trigger] final(queue)@[i] as int),
        forall|c: int| 0 <= c < n && old(seen)@[c] ==> #[trigger] final(seen)@[c],
        forall|j: int| 0 <= j < degree ==> final(seen)@[#[trigger] ds[ci as int].cells[j] as int],
{
    let ghost queue0 = queue@;
    let ghost seen0 = seen@;
    assert(layouts::distinct_below(ds[ci as int].cells, n));
    for j in 0..degree
        invariant
            propagate::proper_demands(ds, n),
            ci < ds.len(),
            degree == at_most_degree(ds[ci as int].cells.len()),
            layouts::distinct_below(ds[ci as int].cells, n),
            c_neighbors@.len() == ds.len() * 8,
            forall|k: int|
                0 <= k < degree ==> c_neighbors@[ci * 8 + k] == #[trigger] ds[ci as int].cells[k],
            seen@.len() == n,
            seen0.len() == n,
            propagate::set_flags(seen@) =~= before.union(layouts::cell_set(queue@)),
            layouts::distinct_below(queue@, n),
            layouts::cell_set(queue@).disjoint(before),
            queue0.len() <= queue@.len(),
            queue@.take(queue0.len() as int) == queue0,
            forall|i: int| 0 <= i < queue@.len() ==> reaches(ds, s, #[trigger] queue@[i] as int),
            reaches(ds, s, from),
            exists|k: int|
                0 <= k < entered_numbers(ds, from).len() && (
                #[trigger] entered_numbers(ds, from)[k]).0 == ci,
            forall|c: int| 0 <= c < n && seen0[c] ==> #[trigger] seen@[c],
            forall|k: int| 0 <= k < j ==> seen@[#[trigger] ds[ci as int].cells[k] as int],
    {
        assert(ci * 8 + j < c_neighbors@.len());
        assert(c_neighbors@.len() == c_neighbors.len());
        let cell: usize = c_neighbors[ci * MAX_DEGREE + j];
        assert(cell == ds[ci as int].cells[j as int]);
        if !seen[cell] {
            let ghost was = queue@;
            let ghost had = seen@;
            seen.set(cell, true);
            queue.push(cell);
            proof {
                assert(via(ds, ci as int, from, cell as int)) by {
                    assert(ds[ci as int].cells[j as int] == cell as int);
                }
                assert(next_to(ds, from, cell as int));
                lemma_reaches_on(ds, s, from, cell as int);
                crate::probability::slices::lemma_cell_set_push(was, cell);
                assert(propagate::set_flags(seen@) =~= propagate::set_flags(had).insert(
                    cell as int,
                ));
                assert(!propagate::set_flags(had).contains(cell as int));
                assert(layouts::distinct_below(queue@, n)) by {
                    assert forall|a: int, b: int| 0 <= a < b < queue@.len() implies queue@[a]
                        != queue@[b] by {
                        if b == was.len() {
                            assert(layouts::cell_set(was).contains(was[a] as int));
                        }
                    }
                }
                assert(queue@.take(queue0.len() as int) =~= queue0) by {
                    assert(was.take(queue0.len() as int) =~= queue0);
                }
            }
        }
    }
}

/// Explores the component that starts at a cell.
fn explore(
    s: usize,
    label: usize,
    n_cells: usize,
    c_neighbors: &Vec<usize>,
    c_degree: &Vec<usize>,
    x_factor_count: &Vec<usize>,
    x_factors: &Vec<usize>,
    seen: &mut Vec<bool>,
    done: &mut Vec<bool>,
    x_component: &mut Vec<usize>,
    Ghost(ds): Ghost<Seq<Demand>>,
)
    requires
        n_cells * 8 <= usize::MAX,
        s < n_cells,
        arrays_fit(
            n_cells as nat,
            c_neighbors@,
            c_degree@,
            x_factor_count@,
            x_factors@,
            ds,
        ),
        old(seen)@.len() == n_cells,
        !old(seen)@[s as int],
        old(done)@.len() == ds.len(),
        old(x_component)@.len() == n_cells,
        numbers_seen(ds, old(seen)@, old(done)@),
        forall|a: int, k: int|
            #![trigger entered_numbers(ds, a)[k]]
            0 <= a < n_cells && old(seen)@[a] && 0 <= k < entered_numbers(ds, a).len() ==> old(
                done)@[entered_numbers(ds, a)[k].0],
    ensures
        final(seen)@.len() == n_cells,
        final(done)@.len() == ds.len(),
        final(x_component)@.len() == n_cells,
        numbers_seen(ds, final(seen)@, final(done)@),
        forall|a: int, k: int|
            #![trigger entered_numbers(ds, a)[k]]
            0 <= a < n_cells && final(seen)@[a] && 0 <= k < entered_numbers(ds, a).len() ==> final(
                done)@[entered_numbers(ds, a)[k].0],
        forall|c: int|
            0 <= c < n_cells ==> (#[trigger] final(seen)@[c] <==> old(seen)@[c] || reaches(
                ds,
                s as int,
                c,
            )),
        forall|c: int|
            0 <= c < n_cells ==> #[trigger] final(x_component)@[c] == if final(seen)@[c] && !old(
                seen)@[c] {
                label
            } else {
                old(x_component)@[c]
            },
{
    let ghost n = n_cells as nat;
    let ghost before = propagate::set_flags(seen@);
    let ghost seen0 = seen@;
    let ghost labels0 = x_component@;
    let mut queue: Vec<usize> = Vec::new();
    queue.push(s);
    seen.set(s, true);
    proof {
        lemma_reaches_self(ds, s as int);
        assert(queue@[0] == s);
        assert(layouts::cell_set(queue@) =~= Set::<int>::empty().insert(s as int)) by {
            assert(queue@[0] == s);
        }
        assert(propagate::set_flags(seen@) =~= before.insert(s as int));
        assert(numbers_seen(ds, seen@, done@)) by {
            assert forall|ci: int, j: int|
                0 <= ci < ds.len() && done@[ci] && 0 <= j < at_most_degree(
                    ds[ci].cells.len(),
                ) implies seen@[#[trigger] ds[ci].cells[j] as int] by {
                assert(layouts::distinct_below(ds[ci].cells, n));
                assert(seen0[ds[ci].cells[j] as int]);
            }
        }
        assert(exploring(ds, n, seen@, done@, before, s as int, queue@, 0));
    }
    let mut head: usize = 0;
    while head < queue.len()
        invariant
            n_cells * 8 <= usize::MAX,
            n == n_cells,
            before == propagate::set_flags(seen0),
            seen0.len() == n,
            labels0.len() == n,
            arrays_fit(n, c_neighbors@, c_degree@, x_factor_count@, x_factors@, ds),
            exploring(ds, n, seen@, done@, before, s as int, queue@, head as int),
            x_component@.len() == n,
            forall|i: int| 0 <= i < head ==> x_component@[(#[trigger] queue@[i]) as int] == label,
            forall|c: int|
                0 <= c < n && !layouts::cell_set(queue@.take(head as int)).contains(c)
                    ==> #[trigger] x_component@[c] == labels0[c],
        decreases
                layouts::first_cells(n).difference(propagate::set_flags(seen@)).len(),
                queue@.len() - head,
    {
        let cell: usize = queue[head];
        let ghost queue1 = queue@;
        let ghost left1 = layouts::first_cells(n).difference(propagate::set_flags(seen@));
        let ghost labels1 = x_component@;
        assert(layouts::distinct_below(queue@, n));
        x_component.set(cell, label);
        proof {
            assert(queue1.take(head + 1) =~= queue1.take(head as int).push(cell));
            crate::probability::slices::lemma_cell_set_push(queue1.take(head as int), cell);
        }
        let count: usize = x_factor_count[cell];
        let ghost numbers = entered_numbers(ds, cell as int);
        proof {
            lemma_occurrences(ds, cell as int, ds.len() as int);
            assert(numbers.len() == count);
        }
        for k in 0..count
            invariant
                n_cells * 8 <= usize::MAX,
                n == n_cells,
                cell < n,
                head < queue1.len(),
                queue1[head as int] == cell,
                arrays_fit(n, c_neighbors@, c_degree@, x_factor_count@, x_factors@, ds),
                exploring(ds, n, seen@, done@, before, s as int, queue@, head as int),
                numbers == entered_numbers(ds, cell as int),
                numbers.len() == count,
                count <= 8,
                queue1.len() <= queue@.len(),
                queue@.take(queue1.len() as int) == queue1,
                forall|i: int|
                    0 <= i < k ==> done@[(#[trigger] numbers[i]).0],
                forall|i: int|
                    0 <= i < count ==> 0 <= (#[trigger] numbers[i]).0 < ds.len(),
                queue@.len() == queue1.len() ==> propagate::set_flags(seen@) == before.union(
                    layouts::cell_set(queue1),
                ),
        {
            proof {
                let all = occurrences(ds, cell as int, ds.len() as int);
                assert(numbers[k as int] == all[k as int]);
                assert(x_factors@[cell * 8 + k] == all[k as int].0);
                assert(x_factors@.len() == x_factors.len());
            }
            let ci: usize = x_factors[cell * MAX_DEGREE + k];
            assert(numbers[k as int].0 == ci);
            if !done[ci] {
                let ghost seen2 = seen@;
                let ghost done2 = done@;
                let ghost queue2 = queue@;
                proof {
                    assert(queue2[head as int] == queue2.take(queue1.len() as int)[head as int]);
                    assert(reaches(ds, s as int, queue2[head as int] as int));
                }
                explore_number(
                    ci,
                    c_degree[ci],
                    c_neighbors,
                    seen,
                    &mut queue,
                    Ghost(ds),
                    Ghost(n),
                    Ghost(before),
                    Ghost(s as int),
                    Ghost(cell as int),
                );
                done.set(ci, true);
                proof {
                    assert(queue@[0] == queue@.take(queue2.len() as int)[0]);
                    assert(numbers_seen(ds, seen@, done@)) by {
                        assert forall|c: int, j: int|
                            0 <= c < ds.len() && done@[c] && 0 <= j < at_most_degree(
                                ds[c].cells.len(),
                            ) implies seen@[#[trigger] ds[c].cells[j] as int] by {
                            assert(layouts::distinct_below(ds[c].cells, n));
                            if c != ci {
                                assert(seen2[ds[c].cells[j] as int]);
                            }
                        }
                    }
                    assert forall|a: int, x: int|
                        #![trigger entered_numbers(ds, a)[x]]
                        before.contains(a) && 0 <= x < entered_numbers(ds, a).len() implies done@[
                        entered_numbers(ds, a)[x].0] by {
                        lemma_entered(ds, a, x);
                        assert(done2[entered_numbers(ds, a)[x].0]);
                    }
                    assert forall|i: int, x: int|
                        #![trigger entered_numbers(ds, queue@[i] as int)[x]]
                        0 <= i < head && 0 <= x < entered_numbers(
                            ds,
                            queue@[i] as int,
                        ).len() implies done@[entered_numbers(ds, queue@[i] as int)[x].0] by {
                        assert(queue@.take(queue2.len() as int)[i] == queue2[i]);
                        lemma_entered(ds, queue2[i] as int, x);
                        assert(done2[entered_numbers(ds, queue2[i] as int)[x].0]);
                    }
                    assert(queue@.take(queue1.len() as int) =~= queue@.take(
                        queue2.len() as int,
                    ).take(queue1.len() as int));
                    assert forall|i: int| 0 <= i < k implies done@[(#[trigger] numbers[i]).0] by {
                        assert(done2[numbers[i].0]);
                    }
                    if queue@.len() == queue1.len() {
                        assert(queue@ =~= queue@.take(queue1.len() as int));
                    }
                }
            }
        }
        proof {
            let queue3 = queue@;
            assert(queue3.take(queue1.len() as int)[head as int] == queue1[head as int]);
            assert forall|i: int, x: int|
                #![trigger entered_numbers(ds, queue3[i] as int)[x]]
                0 <= i < head + 1 && 0 <= x < entered_numbers(
                    ds,
                    queue3[i] as int,
                ).len() implies done@[entered_numbers(ds, queue3[i] as int)[x].0] by {
                if i == head {
                    assert(queue3[i] == cell);
                    assert(done@[numbers[x].0]);
                }
            }
            assert forall|i: int| 0 <= i < head + 1 implies x_component@[(
            #[trigger] queue3[i]) as int] == label by {
                assert(queue3.take(queue1.len() as int)[i] == queue1[i]);
                if i < head {
                    assert(labels1[queue1[i] as int] == label);
                }
            }
            assert(queue3.take(head + 1) =~= queue1.take(head + 1)) by {
                assert forall|i: int| 0 <= i < head + 1 implies queue3[i] == queue1[i] by {
                    assert(queue3.take(queue1.len() as int)[i] == queue1[i]);
                }
            }
            let left = layouts::first_cells(n).difference(propagate::set_flags(seen@));
            layouts::lemma_first_cells(n);
            lemma_set_subset_finite(layouts::first_cells(n), left1);
            lemma_set_subset_finite(layouts::first_cells(n), left);
            if queue3.len() > queue1.len() {
                let c = queue3[queue1.len() as int] as int;
                assert(layouts::cell_set(queue3).contains(c)) by {
                    assert(queue3[queue1.len() as int] == c);
                }
                assert(!layouts::cell_set(queue1).contains(c)) by {
                    if layouts::cell_set(queue1).contains(c) {
                        let i = choose|i: int| 0 <= i < queue1.len() && #[trigger] queue1[i] == c;
                        assert(queue3.take(queue1.len() as int)[i] == queue1[i]);
                        assert(queue3[i] != queue3[queue1.len() as int]);
                    }
                }
                assert(!before.contains(c));
                assert(left.subset_of(left1)) by {
                    assert forall|x: int| left.contains(x) implies left1.contains(x) by {
                        if layouts::cell_set(queue1).contains(x) {
                            let i = choose|i: int|
                                0 <= i < queue1.len() && #[trigger] queue1[i] == x;
                            assert(queue3.take(queue1.len() as int)[i] == queue1[i]);
                            assert(queue3[i] == x);
                            assert(layouts::cell_set(queue3).contains(x));
                        }
                    }
                }
                assert(left1.contains(c) && !left.contains(c));
                left.lemma_subset_not_in_lt(left1, c);
            } else {
                assert(queue3 =~= queue1);
                assert(left =~= left1);
            }
        }
        head = head + 1;
    }
    proof {
        assert(queue@.take(head as int) =~= queue@);
        let all = propagate::set_flags(seen@);
        assert forall|a: int, b: int| all.contains(a) && #[trigger] next_to(
            ds,
            a,
            b,
        ) implies all.contains(b) by {
            let ci = choose|ci: int| #[trigger] via(ds, ci, a, b);
            let k = choose|k: int|
                0 <= k < entered_numbers(ds, a).len() && (
                #[trigger] entered_numbers(ds, a)[k]).0 == ci;
            let j = choose|j: int|
                0 <= j < at_most_degree(ds[ci].cells.len()) && #[trigger] ds[ci].cells[j] == b;
            if before.contains(a) {
                assert(done@[entered_numbers(ds, a)[k].0]);
            } else {
                assert(layouts::cell_set(queue@).contains(a));
                let i = choose|i: int| 0 <= i < queue@.len() && #[trigger] queue@[i] == a;
                assert(done@[entered_numbers(ds, queue@[i] as int)[k].0]);
            }
            assert(layouts::distinct_below(ds[ci].cells, n));
            assert(seen@[ds[ci].cells[j] as int]);
        }
        assert(layouts::cell_set(queue@).contains(s as int)) by {
            assert(queue@[0] == s as int);
        }
        assert forall|c: int| 0 <= c < n implies (#[trigger] seen@[c] <==> seen0[c] || reaches(
            ds,
            s as int,
            c,
        )) by {
            assert(all.contains(c) <==> seen@[c]);
            assert(before.contains(c) <==> seen0[c]);
            if reaches(ds, s as int, c) {
                let path = choose|path: Seq<int>| #[trigger]
                    walk(ds, path) && path[0] == s && path.last() == c;
                lemma_closed_holds(ds, all, path, path.len() - 1);
            }
            if layouts::cell_set(queue@).contains(c) {
                let i = choose|i: int| 0 <= i < queue@.len() && #[trigger] queue@[i] == c;
                assert(reaches(ds, s as int, queue@[i] as int));
            }
        }
        assert forall|c: int| 0 <= c < n implies #[trigger] x_component@[c] == if seen@[c]
            && !seen0[c] {
            label
        } else {
            labels0[c]
        } by {
            assert(all.contains(c) <==> seen@[c]);
            assert(before.contains(c) <==> seen0[c]);
            if layouts::cell_set(queue@).contains(c) {
                let i = choose|i: int| 0 <= i < queue@.len() && #[trigger] queue@[i] == c;
                assert(x_component@[queue@[i] as int] == label);
                assert(!before.contains(c));
            }
        }
        assert forall|a: int, k: int|
            #![trigger entered_numbers(ds, a)[k]]
            0 <= a < n_cells && seen@[a] && 0 <= k < entered_numbers(ds, a).len() implies done@[
            entered_numbers(ds, a)[k].0] by {
            assert(all.contains(a));
            if !before.contains(a) {
                let i = choose|i: int| 0 <= i < queue@.len() && #[trigger] queue@[i] == a;
                assert(done@[entered_numbers(ds, queue@[i] as int)[k].0]);
            }
        }
    }
}

/// Numbers the components in the order of their first cells.
///
/// Two cells belong together where a walk over shared numbers leads from one to the
/// other. Gives each cell's component, and how many there are.
fn component_decompose(
    n_cells: usize,
    n_constraints: usize,
    c_neighbors: &Vec<usize>,
    c_degree: &Vec<usize>,
    x_factor_count: &Vec<usize>,
    x_factors: &Vec<usize>,
    Ghost(ds): Ghost<Seq<Demand>>,
) -> (result: (Vec<usize>, usize))
    requires
        n_cells * 8 <= usize::MAX,
        n_constraints == ds.len(),
        arrays_fit(
            n_cells as nat,
            c_neighbors@,
            c_degree@,
            x_factor_count@,
            x_factors@,
            ds,
        ),
    ensures
        result.1 == roots_below(ds, n_cells as int),
        result.0@.len() == n_cells,
        forall|r: int, c: int|
            0 <= r < n_cells && 0 <= c < n_cells && #[trigger] found_from(ds, r, c)
                ==> result.0@[c] == roots_below(ds, r),
        forall|c: int|
            0 <= c < n_cells && occurrences(ds, c, ds.len() as int).len() == 0
                ==> #[trigger] result.0@[c] == 0,
{
    let ghost n = n_cells as nat;
    let mut seen: Vec<bool> = Vec::new();
    for i in 0..n_cells
        invariant
            seen@.len() == i,
            forall|k: int| 0 <= k < i ==> !#[trigger] seen@[k],
    {
        seen.push(false);
    }
    let mut done: Vec<bool> = Vec::new();
    for i in 0..n_constraints
        invariant
            done@.len() == i,
            forall|k: int| 0 <= k < i ==> !#[trigger] done@[k],
    {
        done.push(false);
    }
    let mut x_component: Vec<usize> = zeros(n_cells);
    let mut label: usize = 0;
    for s in 0..n_cells
        invariant
            n == n_cells,
            n_cells * 8 <= usize::MAX,
            arrays_fit(n, c_neighbors@, c_degree@, x_factor_count@, x_factors@, ds),
            seen@.len() == n,
            done@.len() == ds.len(),
            x_component@.len() == n,
            label == roots_below(ds, s as int),
            label <= s,
            numbers_seen(ds, seen@, done@),
            forall|a: int, k: int|
                #![trigger entered_numbers(ds, a)[k]]
                0 <= a < n_cells && seen@[a] && 0 <= k < entered_numbers(ds, a).len()
                    ==> done@[entered_numbers(ds, a)[k].0],
            forall|c: int|
                0 <= c < n ==> (#[trigger] seen@[c] <==> exists|r: int|
                    0 <= r < s && #[trigger] is_root(ds, r) && reaches(ds, r, c)),
            forall|r: int, c: int|
                0 <= r < s && 0 <= c < n && #[trigger] found_from(ds, r, c) ==> x_component@[c]
                    == roots_below(ds, r),
            forall|c: int|
                #![trigger x_component@[c]]
                0 <= c < n && !seen@[c] ==> x_component@[c] == 0,
    {
        let ghost seen1 = seen@;
        assert(x_factor_count@[s as int] == at_most_degree(
            occurrences(ds, s as int, ds.len() as int).len(),
        ));
        if seen[s] || x_factor_count[s] == 0 {
            proof {
                assert(!is_root(ds, s as int)) by {
                    if seen@[s as int] {
                        let r = choose|r: int|
                            0 <= r < s && #[trigger] is_root(ds, r) && reaches(ds, r, s as int);
                    }
                }
                assert forall|c: int| 0 <= c < n implies (#[trigger] seen@[c] <==> exists|r: int|
                    0 <= r < s + 1 && #[trigger] is_root(ds, r) && reaches(ds, r, c)) by {
                    if seen@[c] {
                        let r = choose|r: int|
                            0 <= r < s && #[trigger] is_root(ds, r) && reaches(ds, r, c);
                        assert(0 <= r < s + 1 && is_root(ds, r) && reaches(ds, r, c));
                    }
                }
            }
        } else {
            proof {
                assert(is_root(ds, s as int)) by {
                    assert forall|d: int|
                        0 <= d < s && occurrences(
                            ds,
                            d,
                            ds.len() as int,
                        ).len() > 0 implies !#[trigger] reaches(ds, d, s as int) by {
                        if reaches(ds, d, s as int) {
                            let r = lemma_has_root(ds, d);
                            lemma_reaches_join(ds, r, d, s as int);
                            assert(seen@[s as int]);
                        }
                    }
                }
            }
            explore(
                s,
                label,
                n_cells,
                c_neighbors,
                c_degree,
                x_factor_count,
                x_factors,
                &mut seen,
                &mut done,
                &mut x_component,
                Ghost(ds),
            );
            proof {
                assert forall|c: int| 0 <= c < n implies (#[trigger] seen@[c] <==> exists|r: int|
                    0 <= r < s + 1 && #[trigger] is_root(ds, r) && reaches(ds, r, c)) by {
                    if seen1[c] {
                        let r = choose|r: int|
                            0 <= r < s && #[trigger] is_root(ds, r) && reaches(ds, r, c);
                        assert(0 <= r < s + 1 && is_root(ds, r) && reaches(ds, r, c));
                    } else if reaches(ds, s as int, c) {
                        assert(is_root(ds, s as int));
                    }
                }
                assert forall|r: int, c: int|
                    0 <= r < s + 1 && 0 <= c < n && #[trigger] found_from(
                        ds,
                        r,
                        c,
                    ) implies x_component@[c] == roots_below(ds, r) by {
                    if r < s {
                        assert(is_root(ds, r) && reaches(ds, r, c));
                        assert(seen1[c]);
                    } else {
                        assert(!seen1[c]) by {
                            if seen1[c] {
                                let q = choose|q: int|
                                    0 <= q < s && #[trigger] is_root(ds, q) && reaches(ds, q, c);
                            }
                        }
                        assert(seen@[c]);
                    }
                }
            }
            label = label + 1;
        }
    }
    proof {
        assert forall|c: int|
            0 <= c < n_cells && occurrences(
                ds,
                c,
                ds.len() as int,
            ).len() == 0 implies #[trigger] x_component@[c] == 0 by {
            if seen@[c] {
                let r = choose|r: int|
                    0 <= r < n_cells && #[trigger] is_root(ds, r) && reaches(ds, r, c);
                lemma_uncounted(ds, r, c);
            }
        }
    }
    (x_component, label)
}

// ---------------------------------------------------------------------------
// Messages and beliefs
// ---------------------------------------------------------------------------

/// The values of some numbers.
pub open spec fn values(list: Seq<Fxp>) -> Seq<int> {
    Seq::new(list.len(), |i: int| list[i].0 as int)
}

/// Whether every number is a probability.
pub open spec fn all_shares(list: Seq<Fxp>) -> bool {
    forall|i: int| 0 <= i < list.len() ==> (#[trigger] list[i]).is_share()
}

/// One more cell that is a mine with probability `p`: how the distribution of the number
/// of mines, from none to eight, changes.
pub open spec fn one_more(dist: Seq<int>, p: int) -> Seq<int> {
    Seq::new(
        9,
        |s: int|
            fx_sum(
                if s > 0 {
                    fx_product(dist[s - 1], p)
                } else {
                    0
                },
                fx_product(dist[s], 65536 - p),
            ),
    )
}

/// The distribution of the number of mines among the first `i` cells other than the
/// one at place `j`.
pub open spec fn others_dist(cells: Seq<usize>, beliefs: Seq<int>, j: int, i: int) -> Seq<int>
    decreases i,
{
    if i <= 0 {
        Seq::new(
            9,
            |s: int|
                if s == 0 {
                    65536
                } else {
                    0
                },
        )
    } else if i - 1 == j {
        others_dist(cells, beliefs, j, i - 1)
    } else {
        one_more(others_dist(cells, beliefs, j, i - 1), beliefs[cells[i - 1] as int])
    }
}

impl FlatGraph {
    /// The arrays refer to each other properly, and no number asks for more mines than
    /// a cell has neighbours.
    pub open spec fn wf(self) -> bool {
        &&& self.c_neighbors@.len() == self.n_constraints * 8
        &&& self.c_degree@.len() == self.n_constraints
        &&& self.c_required@.len() == self.n_constraints
        &&& self.x_factors@.len() == self.n_cells * 8
        &&& self.x_factor_local@.len() == self.n_cells * 8
        &&& self.x_factor_count@.len() == self.n_cells
        &&& forall|ci: int|
            0 <= ci < self.n_constraints ==> (#[trigger] self.c_degree@[ci]) <= 8
        &&& forall|ci: int|
            0 <= ci < self.n_constraints ==> (#[trigger] self.c_required@[ci]) <= 8
        &&& forall|ci: int, j: int|
            0 <= ci < self.n_constraints && 0 <= j < self.c_degree@[ci] ==> #[trigger] self.cells(
                ci,
            )[j] < self.n_cells
        &&& forall|c: int| 0 <= c < self.n_cells ==> (#[trigger] self.x_factor_count@[c]) <= 8
        &&& forall|c: int, k: int|
            #![trigger self.x_factors@[c * 8 + k]]
            0 <= c < self.n_cells && 0 <= k < self.x_factor_count@[c] ==> {
                &&& self.x_factors@[c * 8 + k] < self.n_constraints
                &&& self.x_factor_local@[c * 8 + k] < self.c_degree@[self.x_factors@[c * 8
                    + k] as int]
            }
    }

    /// The cells that a number counts.
    pub open spec fn cells(self, ci: int) -> Seq<usize> {
        Seq::new(self.c_degree@[ci] as nat, |j: int| self.c_neighbors@[ci * 8 + j])
    }

    /// What a number tells the cell at place `j`: how likely the others hold what is
    /// missing if the cell is a mine, and if it is not.
    pub open spec fn mine_message(self, beliefs: Seq<int>, ci: int, j: int) -> int {
        let dist = others_dist(self.cells(ci), beliefs, j, self.c_degree@[ci] as int);
        if self.c_required@[ci] > 0 {
            dist[self.c_required@[ci] - 1]
        } else {
            0
        }
    }

    pub open spec fn safe_message(self, beliefs: Seq<int>, ci: int, j: int) -> int {
        others_dist(
            self.cells(ci),
            beliefs,
            j,
            self.c_degree@[ci] as int,
        )[self.c_required@[ci] as int]
    }

    /// The product of a prior with the first `k` messages to a cell.
    pub open spec fn mine_product(self, prior: int, beliefs: Seq<int>, c: int, k: int) -> int
        decreases k,
    {
        if k <= 0 {
            prior
        } else {
            fx_product(
                self.mine_product(prior, beliefs, c, k - 1),
                self.mine_message(
                    beliefs,
                    self.x_factors@[c * 8 + (k - 1)] as int,
                    self.x_factor_local@[c * 8 + (k - 1)] as int,
                ),
            )
        }
    }

    pub open spec fn safe_product(self, prior: int, beliefs: Seq<int>, c: int, k: int) -> int
        decreases k,
    {
        if k <= 0 {
            65536 - prior
        } else {
            fx_product(
                self.safe_product(prior, beliefs, c, k - 1),
                self.safe_message(
                    beliefs,
                    self.x_factors@[c * 8 + (k - 1)] as int,
                    self.x_factor_local@[c * 8 + (k - 1)] as int,
                ),
            )
        }
    }

    /// A cell's next belief: its two products, normalised. A cell that no number counts
    /// keeps the prior, and so does one whose products both vanish.
    pub open spec fn next_belief(self, prior: int, beliefs: Seq<int>, c: int) -> int {
        let count = self.x_factor_count@[c] as int;
        let mine = self.mine_product(prior, beliefs, c, count);
        let total = fx_sum(mine, self.safe_product(prior, beliefs, c, count));
        if count == 0 || total == 0 {
            prior
        } else {
            clamped((mine * 65536) / total, 0, 65536)
        }
    }

    /// All beliefs after `t` rounds.
    pub open spec fn beliefs_after(self, prior: int, t: nat) -> Seq<int>
        decreases t,
    {
        if t == 0 {
            Seq::new(self.n_cells as nat, |c: int| prior)
        } else {
            let before = self.beliefs_after(prior, (t - 1) as nat);
            Seq::new(self.n_cells as nat, |c: int| self.next_belief(prior, before, c))
        }
    }

    /// Whether the row of a number holds what it tells its cells.
    pub open spec fn row_right(
        self,
        beliefs: Seq<int>,
        mine: Seq<Fxp>,
        safe: Seq<Fxp>,
        ci: int,
    ) -> bool {
        &&& forall|j: int|
            #![trigger mine[ci * 8 + j]]
            0 <= j < self.c_degree@[ci] ==> mine[ci * 8 + j].0 == self.mine_message(beliefs, ci, j)
        &&& forall|j: int|
            #![trigger safe[ci * 8 + j]]
            0 <= j < self.c_degree@[ci] ==> safe[ci * 8 + j].0 == self.safe_message(beliefs, ci, j)
    }

    /// Whether rows of messages hold what the first `upto` numbers tell their cells.
    spec fn messages_right(
        self,
        beliefs: Seq<int>,
        mine: Seq<Fxp>,
        safe: Seq<Fxp>,
        upto: int,
    ) -> bool {
        &&& mine.len() == self.n_constraints * 8
        &&& safe.len() == self.n_constraints * 8
        &&& forall|ci: int, j: int|
            #![trigger mine[ci * 8 + j]]
            0 <= ci < upto && 0 <= j < self.c_degree@[ci] ==> mine[ci * 8 + j].0
                == self.mine_message(beliefs, ci, j)
        &&& forall|ci: int, j: int|
            #![trigger safe[ci * 8 + j]]
            0 <= ci < upto && 0 <= j < self.c_degree@[ci] ==> safe[ci * 8 + j].0
                == self.safe_message(beliefs, ci, j)
    }
}

/// Computes the distribution of the number of mines among the cells of a number other
/// than the one at place `j`.
fn distribute(graph: &FlatGraph, belief: &Vec<Fxp>, ci: usize, j: usize) -> (dp: Vec<Fxp>)
    requires
        graph.wf(),
        ci < graph.n_constraints,
        belief@.len() == graph.n_cells,
        all_shares(belief@),
    ensures
        values(dp@) =~= others_dist(
            graph.cells(ci as int),
            values(belief@),
            j as int,
            graph.c_degree@[ci as int] as int,
        ),
        dp@.len() == 9,
        all_shares(dp@),
{
    let ghost cells = graph.cells(ci as int);
    let ghost beliefs = values(belief@);
    let mut dp: Vec<Fxp> = Vec::new();
    dp.push(Fxp::one());
    for s in 0..MAX_DEGREE
        invariant
            dp@.len() == s + 1,
            dp@[0].0 == 65536,
            forall|k: int| 1 <= k <= s ==> (#[trigger] dp@[k]).0 == 0,
    {
        dp.push(Fxp::zero());
    }
    let m: usize = graph.c_degree[ci];
    assert(values(dp@) =~= others_dist(cells, beliefs, j as int, 0));
    for i in 0..m
        invariant
            graph.wf(),
            ci < graph.n_constraints,
            m == graph.c_degree@[ci as int],
            cells == graph.cells(ci as int),
            beliefs == values(belief@),
            belief@.len() == graph.n_cells,
            all_shares(belief@),
            dp@.len() == 9,
            all_shares(dp@),
            values(dp@) =~= others_dist(cells, beliefs, j as int, i as int),
    {
        if i != j {
            assert(cells[i as int] < graph.n_cells);
            assert(graph.c_neighbors@.len() == graph.c_neighbors.len());
            let cell: usize = graph.c_neighbors[ci * MAX_DEGREE + i];
            assert(cell == cells[i as int]);
            let p_mine: Fxp = belief[cell];
            assert(belief@[cell as int].is_share());
            let p_safe: Fxp = p_mine.complement();
            let ghost old_dp = values(dp@);
            let ghost p = p_mine.0 as int;
            let mut s: usize = MAX_DEGREE + 1;
            while s > 0
                invariant
                    s <= 9,
                    dp@.len() == 9,
                    all_shares(dp@),
                    old_dp.len() == 9,
                    p == p_mine.0,
                    p_safe.0 == 65536 - p,
                    forall|k: int| 0 <= k < s ==> (#[trigger] dp@[k]).0 == old_dp[k],
                    forall|k: int|
                        s <= k < 9 ==> (#[trigger] dp@[k]).0 == one_more(old_dp, p)[k],
                decreases s,
            {
                s = s - 1;
                let from_mine: Fxp = if s > 0 {
                    dp[s - 1].mul(p_mine)
                } else {
                    Fxp::zero()
                };
                let from_safe: Fxp = dp[s].mul(p_safe);
                let sum: Fxp = from_mine.add(from_safe);
                dp.set(s, sum);
            }
            assert(values(dp@) =~= one_more(old_dp, p));
        }
    }
    dp
}

/// Whether messages are the same but for so many from one on.
pub open spec fn same_but_for(before: Seq<Fxp>, after: Seq<Fxp>, from: int, count: int) -> bool {
    &&& after.len() == before.len()
    &&& forall|i: int|
        0 <= i < before.len() && !(from <= i < from + count) ==> #[trigger] after[i] == before[i]
}

/// One more row of messages.
proof fn lemma_one_more_row(
    graph: FlatGraph,
    beliefs: Seq<int>,
    mine0: Seq<Fxp>,
    safe0: Seq<Fxp>,
    mine: Seq<Fxp>,
    safe: Seq<Fxp>,
    ci: int,
)
    requires
        graph.wf(),
        0 <= ci < graph.n_constraints,
        graph.messages_right(beliefs, mine0, safe0, ci),
        graph.row_right(beliefs, mine, safe, ci),
        same_but_for(mine0, mine, ci * 8, graph.c_degree@[ci] as int),
        same_but_for(safe0, safe, ci * 8, graph.c_degree@[ci] as int),
    ensures
        graph.messages_right(beliefs, mine, safe, ci + 1),
{
    assert forall|c: int, i: int|
        #![trigger mine[c * 8 + i]]
        0 <= c < ci + 1 && 0 <= i < graph.c_degree@[c] implies mine[c * 8 + i].0
        == graph.mine_message(beliefs, c, i) by {
        assert(graph.c_degree@[c] <= 8);
        if c < ci {
            assert(mine0[c * 8 + i].0 == graph.mine_message(beliefs, c, i));
            assert(mine[c * 8 + i] == mine0[c * 8 + i]);
        } else {
            assert(mine[ci * 8 + i].0 == graph.mine_message(beliefs, ci, i));
        }
    }
    assert forall|c: int, i: int|
        #![trigger safe[c * 8 + i]]
        0 <= c < ci + 1 && 0 <= i < graph.c_degree@[c] implies safe[c * 8 + i].0
        == graph.safe_message(beliefs, c, i) by {
        assert(graph.c_degree@[c] <= 8);
        if c < ci {
            assert(safe0[c * 8 + i].0 == graph.safe_message(beliefs, c, i));
            assert(safe[c * 8 + i] == safe0[c * 8 + i]);
        } else {
            assert(safe[ci * 8 + i].0 == graph.safe_message(beliefs, ci, i));
        }
    }
}

/// Computes what number `ci` tells each of its cells. All other messages stay, those in
/// slots of the number that it does not use among them.
pub fn update_factor_messages(
    graph: &FlatGraph,
    ci: usize,
    belief: &Vec<Fxp>,
    msg_mine: &mut Vec<Fxp>,
    msg_safe: &mut Vec<Fxp>,
)
    requires
        graph.wf(),
        ci < graph.n_constraints,
        belief@.len() == graph.n_cells,
        all_shares(belief@),
        old(msg_mine)@.len() == graph.n_constraints * 8,
        old(msg_safe)@.len() == graph.n_constraints * 8,
        all_shares(old(msg_mine)@),
        all_shares(old(msg_safe)@),
    ensures
        graph.row_right(values(belief@), final(msg_mine)@, final(msg_safe)@, ci as int),
        all_shares(final(msg_mine)@),
        all_shares(final(msg_safe)@),
        same_but_for(
            old(msg_mine)@,
            final(msg_mine)@,
            ci * 8,
            graph.c_degree@[ci as int] as int,
        ),
        same_but_for(
            old(msg_safe)@,
            final(msg_safe)@,
            ci * 8,
            graph.c_degree@[ci as int] as int,
        ),
{
    let ghost beliefs = values(belief@);
    let m: usize = graph.c_degree[ci];
    let k: usize = graph.c_required[ci];
    for j in 0..m
        invariant
            same_but_for(old(msg_mine)@, msg_mine@, ci * 8, j as int),
            same_but_for(old(msg_safe)@, msg_safe@, ci * 8, j as int),
            graph.wf(),
            ci < graph.n_constraints,
            m == graph.c_degree@[ci as int],
            k == graph.c_required@[ci as int],
            beliefs == values(belief@),
            belief@.len() == graph.n_cells,
            all_shares(belief@),
            msg_mine@.len() == graph.n_constraints * 8,
            msg_safe@.len() == graph.n_constraints * 8,
            all_shares(msg_mine@),
            all_shares(msg_safe@),
            forall|i: int|
                #![trigger msg_mine@[ci * 8 + i]]
                0 <= i < j ==> msg_mine@[ci * 8 + i].0 == graph.mine_message(
                    beliefs,
                    ci as int,
                    i,
                ),
            forall|i: int|
                #![trigger msg_safe@[ci * 8 + i]]
                0 <= i < j ==> msg_safe@[ci * 8 + i].0 == graph.safe_message(
                    beliefs,
                    ci as int,
                    i,
                ),
    {
        let dp: Vec<Fxp> = distribute(graph, belief, ci, j);
        let ghost mine0 = msg_mine@;
        let ghost safe0 = msg_safe@;
        proof {
            let dist = others_dist(graph.cells(ci as int), beliefs, j as int, m as int);
            assert(values(dp@)[k as int] == dist[k as int]);
            if k > 0 {
                assert(values(dp@)[k - 1] == dist[k - 1]);
            }
            assert(m <= 8);
            assert(msg_mine@.len() == msg_mine.len());
        }
        let mine: Fxp = if k > 0 {
            dp[k - 1]
        } else {
            Fxp::zero()
        };
        let safe: Fxp = dp[k];
        msg_mine.set(ci * MAX_DEGREE + j, mine);
        msg_safe.set(ci * MAX_DEGREE + j, safe);
        proof {
            assert forall|i: int|
                #![trigger msg_mine@[ci * 8 + i]]
                0 <= i < j + 1 implies msg_mine@[ci * 8 + i].0 == graph.mine_message(
                beliefs,
                ci as int,
                i,
            ) by {
                if i < j {
                    assert(mine0[ci * 8 + i].0 == graph.mine_message(beliefs, ci as int, i));
                }
            }
            assert forall|i: int|
                #![trigger msg_safe@[ci * 8 + i]]
                0 <= i < j + 1 implies msg_safe@[ci * 8 + i].0 == graph.safe_message(
                beliefs,
                ci as int,
                i,
            ) by {
                if i < j {
                    assert(safe0[ci * 8 + i].0 == graph.safe_message(beliefs, ci as int, i));
                }
            }
        }
    }
}

/// Computes the next belief of every cell from the messages to it.
fn update_variable_beliefs(
    graph: &FlatGraph,
    prior_mine: Fxp,
    msg_mine: &Vec<Fxp>,
    msg_safe: &Vec<Fxp>,
    belief: &mut Vec<Fxp>,
)
    requires
        graph.wf(),
        prior_mine.is_share(),
        old(belief)@.len() == graph.n_cells,
        all_shares(old(belief)@),
        graph.messages_right(
            values(old(belief)@),
            msg_mine@,
            msg_safe@,
            graph.n_constraints as int,
        ),
        all_shares(msg_mine@),
        all_shares(msg_safe@),
    ensures
        final(belief)@.len() == graph.n_cells,
        all_shares(final(belief)@),
        values(final(belief)@) =~= Seq::new(
            graph.n_cells as nat,
            |c: int| graph.next_belief(prior_mine.0 as int, values(old(belief)@), c),
        ),
{
    let ghost beliefs = values(belief@);
    let ghost prior = prior_mine.0 as int;
    let prior_safe: Fxp = prior_mine.complement();
    for xi in 0..graph.n_cells
        invariant
            graph.wf(),
            prior_mine.is_share(),
            prior == prior_mine.0,
            prior_safe.0 == 65536 - prior,
            graph.messages_right(beliefs, msg_mine@, msg_safe@, graph.n_constraints as int),
            all_shares(msg_mine@),
            all_shares(msg_safe@),
            belief@.len() == graph.n_cells,
            all_shares(belief@),
            forall|c: int|
                0 <= c < xi ==> (#[trigger] belief@[c]).0 == graph.next_belief(prior, beliefs, c),
    {
        let count: usize = graph.x_factor_count[xi];
        if count == 0 {
            belief.set(xi, prior_mine);
        } else {
            let mut prod_mine: Fxp = prior_mine;
            let mut prod_safe: Fxp = prior_safe;
            for k in 0..count
                invariant
                    graph.wf(),
                    xi < graph.n_cells,
                    count == graph.x_factor_count@[xi as int],
                    graph.messages_right(
                        beliefs,
                        msg_mine@,
                        msg_safe@,
                        graph.n_constraints as int,
                    ),
                    prod_mine.is_share(),
                    prod_safe.is_share(),
                    prod_mine.0 == graph.mine_product(prior, beliefs, xi as int, k as int),
                    prod_safe.0 == graph.safe_product(prior, beliefs, xi as int, k as int),
            {
                assert(graph.x_factor_count@[xi as int] <= 8);
                assert(graph.x_factors@.len() == graph.x_factors.len());
                let ci: usize = graph.x_factors[xi * MAX_DEGREE + k];
                assert(graph.x_factors@[xi * 8 + k] < graph.n_constraints);
                let j: usize = graph.x_factor_local[xi * MAX_DEGREE + k];
                assert(graph.c_degree@[ci as int] <= 8);
                assert(msg_mine@.len() == msg_mine.len());
                assert(msg_mine@[ci * 8 + j].0 == graph.mine_message(beliefs, ci as int, j as int));
                assert(msg_safe@[ci * 8 + j].0 == graph.safe_message(beliefs, ci as int, j as int));
                prod_mine = prod_mine.mul(msg_mine[ci * MAX_DEGREE + j]);
                prod_safe = prod_safe.mul(msg_safe[ci * MAX_DEGREE + j]);
            }
            let total: Fxp = prod_mine.add(prod_safe);
            let next: Fxp = if total.0 == 0 {
                prior_mine
            } else {
                let shifted: i64 = (prod_mine.0 as i64) * 65536;
                let quotient: i64 = shifted / (total.0 as i64);
                if quotient > 65536 {
                    Fxp(UNIT)
                } else {
                    proof {
                        let a = shifted as int;
                        let b = total.0 as int;
                        assert(a / b >= 0) by (nonlinear_arith)
                            requires
                                a >= 0,
                                b > 0,
                        ;
                    }
                    Fxp(quotient as i32)
                }
            };
            belief.set(xi, next);
        }
    }
}

/// Passes messages for a fixed number of rounds and gives each cell's belief.
pub fn bp_solve(graph: &FlatGraph, prior_mine: Fxp) -> (belief: Vec<Fxp>)
    requires
        graph.wf(),
        prior_mine.is_share(),
    ensures
        belief@.len() == graph.n_cells,
        all_shares(belief@),
        values(belief@) =~= graph.beliefs_after(prior_mine.0 as int, BP_ITERS as nat),
{
    let nc: usize = graph.n_constraints;
    let nx: usize = graph.n_cells;
    let ghost prior = prior_mine.0 as int;
    let mut belief: Vec<Fxp> = Vec::new();
    for i in 0..nx
        invariant
            belief@.len() == i,
            prior_mine.is_share(),
            forall|c: int| 0 <= c < i ==> #[trigger] belief@[c] == prior_mine,
    {
        belief.push(prior_mine);
    }
    assert(graph.c_neighbors@.len() == graph.c_neighbors.len());
    let mut msg_mine: Vec<Fxp> = Vec::new();
    let mut msg_safe: Vec<Fxp> = Vec::new();
    for i in 0..nc * MAX_DEGREE
        invariant
            msg_mine@.len() == i,
            msg_safe@.len() == i,
            all_shares(msg_mine@),
            all_shares(msg_safe@),
    {
        msg_mine.push(Fxp::half());
        msg_safe.push(Fxp::half());
    }
    assert(values(belief@) =~= graph.beliefs_after(prior, 0));
    for t in 0..BP_ITERS
        invariant
            graph.wf(),
            nc == graph.n_constraints,
            nx == graph.n_cells,
            prior_mine.is_share(),
            prior == prior_mine.0,
            belief@.len() == nx,
            all_shares(belief@),
            msg_mine@.len() == nc * 8,
            msg_safe@.len() == nc * 8,
            all_shares(msg_mine@),
            all_shares(msg_safe@),
            values(belief@) =~= graph.beliefs_after(prior, t as nat),
    {
        for ci in 0..nc
            invariant
                graph.wf(),
                nc == graph.n_constraints,
                belief@.len() == graph.n_cells,
                all_shares(belief@),
                graph.messages_right(values(belief@), msg_mine@, msg_safe@, ci as int),
                all_shares(msg_mine@),
                all_shares(msg_safe@),
        {
            let ghost mine0 = msg_mine@;
            let ghost safe0 = msg_safe@;
            update_factor_messages(graph, ci, &belief, &mut msg_mine, &mut msg_safe);
            proof {
                lemma_one_more_row(
                    *graph,
                    values(belief@),
                    mine0,
                    safe0,
                    msg_mine@,
                    msg_safe@,
                    ci as int,
                );
            }
        }
        update_variable_beliefs(graph, prior_mine, &msg_mine, &msg_safe, &mut belief);
    }
    belief
}

// ---------------------------------------------------------------------------
// Whole boards
// ---------------------------------------------------------------------------

/// The belief-propagation estimator.
pub struct FpgaBp;

impl FpgaBp {
    /// The estimator has no settings.
    pub fn new() -> (strategy: Self)
        ensures
            strategy == FpgaBp,
    {
        Self
    }
}

/// What a cell is reported as: a certain mine as one, an open question as believed,
/// anything else as zero.
pub open spec fn believed(set_up: SimSetup, beliefs: Seq<int>, p: (usize, usize)) -> int {
    if set_up.certain_mines@.contains(p) {
        65536
    } else if set_up.hidden_cells@.contains(p) {
        beliefs[setup::index_in(set_up.hidden_cells@, p)]
    } else {
        0
    }
}

/// A setup of the board and the flat graph of its numbers.
pub open spec fn models(graph: FlatGraph, set_up: SimSetup, game: Minesweeper) -> bool {
    &&& set_up.describes(game)
    &&& graph.wf()
    &&& graph.n_cells == set_up.hidden_cells@.len()
    &&& graph.lays_out_numbers(layouts::demands(set_up.constraints@), set_up.hidden_cells@.len())
    &&& graph.lays_out_cells(layouts::demands(set_up.constraints@), set_up.hidden_cells@.len())
}

/// Every cell of the grid is what is believed of it after all rounds.
pub open spec fn reports(
    rows: Seq<Vec<Fxp>>,
    graph: FlatGraph,
    set_up: SimSetup,
    game: Minesweeper,
) -> bool {
    forall|x: int, y: int|
        game.has(x, y) ==> (#[trigger] rows[y]@[x]).0 == believed(
            set_up,
            graph.beliefs_after(prior_of(set_up), BP_ITERS as nat),
            (x as usize, y as usize),
        )
}

/// The share of mines among the open cells, in fixed point.
pub open spec fn prior_of(set_up: SimSetup) -> int {
    let n = set_up.hidden_cells@.len() as int;
    clamped((set_up.mines_to_place * 131072 + n) / (n * 2), 0, 65536)
}

/// The numbers of a board count eight cells at most, and ask for eight mines at most.
proof fn lemma_small_numbers(game: Minesweeper, set_up: SimSetup, i: int)
    requires
        game.wf(),
        set_up.describes(game),
        setup::unopened(game).len() <= usize::MAX,
        0 <= i <= setup::board_demands(game).len(),
    ensures
        ({
            let known = setup::board_known(game);
            let n = setup::unopened(game).len();
            let small = reduce::reduced_upto(setup::board_demands(game), known, n, i);
            &&& small.len() <= i
            &&& forall|k: int| 0 <= k < small.len() ==> (#[trigger] small[k]).mines <= 8
        }),
    decreases i,
{
    if i > 0 {
        lemma_small_numbers(game, set_up, i - 1);
        board::lemma_scan(setup::speaks_test(game), game.width, game.height);
        let p = setup::speakers(game)[i - 1];
        board::lemma_neighbours(p.0 as int, p.1 as int, game.width, game.height);
        setup::lemma_covers(game, game.around(p.0 as int, p.1 as int));
        assert(setup::speaks_test(game)(p.0 as int, p.1 as int));
    }
}

impl ProbabilityStrategy for FpgaBp {
    type Grid = Vec<Vec<Fxp>>;

    open spec fn can_estimate(&self, game: Minesweeper) -> bool {
        game.wf() && game.width * game.height * 8 <= usize::MAX
    }

    /// Beliefs after all rounds for the open cells, one for certain mines, zero for the
    /// rest. There is no answer where more mines are left than cells.
    fn calculate(&mut self, game: &Minesweeper) -> (grid: Option<Vec<Vec<Fxp>>>)
        ensures
            grid is None <==> setup::mines_left(*game) > setup::unopened(*game).len(),
            grid matches Some(rows) ==> {
                &&& rows@.len() == game.height
                &&& forall|y: int|
                    0 <= y < game.height ==> (#[trigger] rows@[y])@.len() == game.width
                &&& exists|set_up: SimSetup, graph: FlatGraph| #[trigger]
                    models(graph, set_up, *game) && reports(rows@, graph, set_up, *game)
            },
    {
        let set_up: SimSetup = match SimSetup::build(game) {
            None => {
                return None;
            },
            Some(set_up) => set_up,
        };
        let n: usize = set_up.hidden_cells.len();
        let ghost ds = layouts::demands(set_up.constraints@);
        proof {
            let w = game.width as int;
            let h = game.height as int;
            setup::lemma_fewer_cells(*game, set_up);
            estimate::lemma_fits(*game, set_up);
            board::lemma_scan_bound(setup::unopened_test(*game), w, h);
            board::lemma_scan_bound(setup::speaks_test(*game), w, h);
            lemma_small_numbers(
                *game,
                set_up,
                setup::board_demands(*game).len() as int,
            );
            assert forall|ci: int| 0 <= ci < set_up.constraints@.len() implies (
            #[trigger] set_up.constraints@[ci]).1 <= 8 by {
                assert(ds[ci].mines <= 8);
            }
            assert(ds.len() == set_up.constraints@.len());
        }
        let graph = FlatGraph::build(&set_up.constraints, n);
        let belief: Vec<Fxp> = if n == 0 {
            Vec::new()
        } else {
            bp_solve(&graph, Fxp::from_ratio(set_up.mines_to_place, n))
        };
        let ghost beliefs = graph.beliefs_after(prior_of(set_up), BP_ITERS as nat);
        let rows: Vec<Vec<Fxp>> = estimate::scatter(
            &belief,
            Fxp::zero(),
            Fxp::one(),
            &set_up,
            game.width,
            game.height,
        );
        proof {
            let hidden = set_up.hidden_cells@;
            assert forall|x: int, y: int| game.has(x, y) implies (#[trigger] rows@[y]@[x]).0
                == believed(set_up, beliefs, (x as usize, y as usize)) by {
                let p = (x as usize, y as usize);
                if !set_up.certain_mines@.contains(p) && hidden.contains(p) {
                    let k = setup::index_in(hidden, p);
                    assert(0 <= k < n && hidden[k] == p);
                    assert(values(belief@)[k] == beliefs[k]);
                }
            }
        }
        assert(models(graph, set_up, *game));
        Some(rows)
    }
}

/// A cell that no number counts keeps the prior, however many rounds are run.
pub proof fn law_interior_keeps_the_prior(graph: FlatGraph, prior: int, t: nat, c: int)
    requires
        0 <= c < graph.n_cells,
        graph.x_factor_count@[c] == 0,
    ensures
        graph.beliefs_after(prior, t)[c] == prior,
{
}

/// The distribution among the others depends on their own beliefs only.
proof fn lemma_others_same(cells: Seq<usize>, a: Seq<int>, b: Seq<int>, j: int, i: int)
    requires
        forall|k: int|
            0 <= k < i ==> a[(#[trigger] cells[k]) as int] == b[cells[k] as int],
    ensures
        others_dist(cells, a, j, i) == others_dist(cells, b, j, i),
    decreases i,
{
    if i > 0 {
        lemma_others_same(cells, a, b, j, i - 1);
        assert(a[cells[i - 1] as int] == b[cells[i - 1] as int]);
    }
}

proof fn lemma_products_same(
    graph: FlatGraph,
    ds: Seq<Demand>,
    n: nat,
    prior: int,
    a: Seq<int>,
    b: Seq<int>,
    c: int,
    k: int,
)
    requires
        graph.lays_out_numbers(ds, n),
        graph.lays_out_cells(ds, n),
        0 <= c < n,
        0 <= k <= graph.x_factor_count@[c],
        forall|d: int| #[trigger] next_to(ds, c, d) ==> a[d] == b[d],
    ensures
        graph.mine_product(prior, a, c, k) == graph.mine_product(prior, b, c, k),
        graph.safe_product(prior, a, c, k) == graph.safe_product(prior, b, c, k),
    decreases k,
{
    if k > 0 {
        lemma_products_same(graph, ds, n, prior, a, b, c, k - 1);
        let all = occurrences(ds, c, ds.len() as int);
        lemma_occurrences(ds, c, ds.len() as int);
        assert(graph.x_factor_count@[c] == at_most_degree(all.len()));
        let at = all[k - 1];
        let ci = at.0;
        assert(graph.x_factors@[c * 8 + (k - 1)] == ci);
        assert(graph.c_degree@[ci] == at_most_degree(ds[ci].cells.len()));
        let cells = graph.cells(ci);
        assert forall|j: int| 0 <= j < graph.c_degree@[ci] implies a[(
        #[trigger] cells[j]) as int] == b[cells[j] as int] by {
            let d = ds[ci].cells[j] as int;
            assert(cells[j] == d);
            assert(entered_numbers(ds, c)[k - 1].0 == ci);
            assert(via(ds, ci, c, d));
            assert(next_to(ds, c, d));
        }
        lemma_others_same(cells, a, b, at.1, graph.c_degree@[ci] as int);
    }
}

/// Components do not interact: what a cell is believed next depends on nothing but the
/// beliefs of the cells that share a number with it. Components can therefore be worked
/// on side by side.
pub proof fn law_components_do_not_interact(
    graph: FlatGraph,
    ds: Seq<Demand>,
    n: nat,
    prior: int,
    a: Seq<int>,
    b: Seq<int>,
    c: int,
)
    requires
        graph.lays_out_numbers(ds, n),
        graph.lays_out_cells(ds, n),
        0 <= c < n,
        forall|d: int| #[trigger] next_to(ds, c, d) ==> a[d] == b[d],
    ensures
        graph.next_belief(prior, a, c) == graph.next_belief(prior, b, c),
{
    lemma_products_same(graph, ds, n, prior, a, b, c, graph.x_factor_count@[c] as int);
}

/// Beliefs start at the prior, and each round weighs the numbers anew with the beliefs of the
/// round before.
pub proof fn law_beliefs_go_round_by_round(graph: FlatGraph, prior: int, t: nat, c: int)
    requires
        0 <= c < graph.n_cells,
    ensures
        graph.beliefs_after(prior, 0).len() == graph.n_cells,
        graph.beliefs_after(prior, 0)[c] == prior,
        graph.beliefs_after(prior, t + 1)[c] == graph.next_belief(
            prior,
            graph.beliefs_after(prior, t),
            c,
        ),
{
}

/// What is reported of a board: one on proven mines, on every open cell what is believed of
/// it after fifty rounds, and zero elsewhere. The prior is the mines left to place over the
/// open cells, to the nearest unit.
pub proof fn law_the_grid_reads_the_beliefs(
    rows: Seq<Vec<Fxp>>,
    graph: FlatGraph,
    set_up: SimSetup,
    game: Minesweeper,
    p: (usize, usize),
)
    requires
        models(graph, set_up, game),
        reports(rows, graph, set_up, game),
        setup::unopened(game).len() <= usize::MAX,
        game.has(p.0 as int, p.1 as int),
    ensures
        set_up.certain_mines@.contains(p) ==> rows[p.1 as int]@[p.0 as int].0 == 65536,
        !set_up.certain_mines@.contains(p) ==> forall|i: int|
            0 <= i < set_up.hidden_cells@.len() && #[trigger] set_up.hidden_cells@[i] == p
                ==> rows[p.1 as int]@[p.0 as int].0 == graph.beliefs_after(
                prior_of(set_up),
                50,
            )[i],
        !set_up.certain_mines@.contains(p) && !set_up.hidden_cells@.contains(p)
            ==> rows[p.1 as int]@[p.0 as int].0 == 0,
        0 < set_up.hidden_cells@.len() && set_up.mines_to_place <= set_up.hidden_cells@.len() ==> {
            let n = set_up.hidden_cells@.len() as int;
            let exact = set_up.mines_to_place * 65536;
            2 * exact - n <= 2 * (prior_of(set_up) * n) <= 2 * exact + n
        },
{
    estimate::lemma_fits(game, set_up);
    let hidden = set_up.hidden_cells@;
    assert(rows[p.1 as int]@[p.0 as int].0 == believed(
        set_up,
        graph.beliefs_after(prior_of(set_up), BP_ITERS as nat),
        (p.0 as int as usize, p.1 as int as usize),
    ));
    if hidden.contains(p) {
        let k = setup::index_in(hidden, p);
        let i = choose|i: int| 0 <= i < hidden.len() && hidden[i] == p;
        assert(0 <= k < hidden.len() && hidden[k] == p);
        assert forall|i: int| 0 <= i < hidden.len() && #[trigger] hidden[i] == p implies i == k by {}
    }
    let n = hidden.len() as int;
    let m = set_up.mines_to_place as int;
    if 0 < n && m <= n {
        let num = m * 131072 + n;
        let q = num / (n * 2);
        vstd::arithmetic::div_mod::lemma_fundamental_div_mod(num, n * 2);
        vstd::arithmetic::div_mod::lemma_mod_bound(num, n * 2);
        let r = num % (n * 2);
        assert(0 <= q <= 65536) by (nonlinear_arith)
            requires
                num == n * 2 * q + r,
                num == m * 131072 + n,
                0 <= r < n * 2,
                0 <= m <= n,
                n > 0,
        ;
        assert(n * 2 * q == 2 * (q * n)) by (nonlinear_arith);
    }
}

/// Every component has a label of its own, from zero up in the order of their first cells, and
/// all its cells carry it.
pub proof fn law_components_have_labels_of_their_own(
    graph: FlatGraph,
    ds: Seq<Demand>,
    n: nat,
    a: int,
    b: int,
)
    requires
        graph.labels_components(ds, n),
        0 <= a < b < n,
        is_root(ds, a),
        is_root(ds, b),
    ensures
        graph.x_component@[a] < graph.x_component@[b] < graph.n_components,
        forall|c: int|
            0 <= c < n && #[trigger] found_from(ds, a, c) ==> graph.x_component@[c]
                == graph.x_component@[a],
{
    lemma_reaches_self(ds, a);
    lemma_reaches_self(ds, b);
    assert(found_from(ds, a, a));
    assert(found_from(ds, b, b));
    lemma_roots_grow(ds, a + 1, b);
    lemma_roots_grow(ds, b + 1, n as int);
}

proof fn lemma_roots_grow(ds: Seq<Demand>, i: int, j: int)
    requires
        i <= j,
    ensures
        roots_below(ds, i) <= roots_below(ds, j),
    decreases j - i,
{
    if i < j {
        lemma_roots_grow(ds, i, j - 1);
    }
}

} // verus!
