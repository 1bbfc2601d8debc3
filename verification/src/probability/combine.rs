//! Putting the answers for the groups back together.
//!
//! A group's answer cannot be a probability: how likely its layouts are depends on
//! how many mines the rest of the board takes. What does not depend on the rest is
//! how many layouts it has for each number of mines. Those counts combine by
//! convolution, and the cells that no number speaks about take the mines left over,
//! in as many ways as there are of choosing cells for them.

use vstd::prelude::*;
use vstd::set_lib::*;
use crate::big_nat::BigNat;
use crate::counting;
use crate::layouts;
use crate::layouts::Demand;
use crate::probability::components;
use crate::probability::components::Component;
use crate::probability::groups;
use crate::probability::propagate;
use crate::probability::reduce;
use crate::probability::search;
use crate::probability::search::ComponentSolution;
use crate::probability::setup::SimSetup;
use crate::probability::slices;

verus! {

/// How often each cell of a problem is a mine.
pub struct Combined {
    /// The layouts of the whole problem.
    pub total: BigNat,
    /// `mines[i]`: those in which cell `i` is a mine.
    pub mines: Vec<BigNat>,
}

/// The layouts of a set-up problem.
pub open spec fn setup_layouts(setup: SimSetup) -> Set<Set<int>> {
    propagate::problem(
        setup.hidden_cells@.len(),
        layouts::demands(setup.constraints@),
        setup.mines_to_place as nat,
    )
}

/// The cells that no number speaks about, ascending.
pub open spec fn interior_of(setup: SimSetup) -> Seq<usize> {
    let n = setup.hidden_cells@.len();
    propagate::listed(
        layouts::first_cells(n).difference(
            components::spoken_of(layouts::demands(setup.constraints@)),
        ),
        n as int,
    )
}

/// Whether the groups of a problem are all solved.
pub open spec fn solved(
    setup: SimSetup,
    components: Seq<Component>,
    solutions: Seq<ComponentSolution>,
) -> bool {
    let ds = layouts::demands(setup.constraints@);
    &&& setup.wf()
    &&& components::decomposes(components, ds)
    &&& forall|j: int|
        0 <= j < components.len() ==> layouts::distinct_below(
            (#[trigger] components[j]).cells@,
            setup.hidden_cells@.len(),
        )
    &&& solutions.len() == components.len()
    &&& forall|j: int|
        0 <= j < components.len() ==> search::solves(
            #[trigger] solutions[j],
            components[j].cells@.len(),
            components::rebased(ds, components[j].cells@, ds.len() as int),
        )
}

/// The cells of the groups from `lo` up to `hi`.
spec fn cells_of(components: Seq<Component>, lo: int, hi: int) -> Set<int> {
    Set::new(
        |c: int|
            exists|i: int|
                lo <= i < hi && layouts::cell_set((#[trigger] components[i]).cells@).contains(c),
    )
}

/// Whether a list counts the layouts of some cells, one entry for each number of
/// mines they can hold.
spec fn tallies(list: Seq<BigNat>, dom: Set<int>, ds: Seq<Demand>) -> bool {
    &&& counting::poly_wf(list)
    &&& list.len() == dom.len() + 1
    &&& counting::counts(counting::poly(list), groups::group_layouts(dom, ds))
}

// ---------------------------------------------------------------------------
// Facts about the groups
// ---------------------------------------------------------------------------

/// Different groups share no cell.
proof fn lemma_groups_disjoint(components: Seq<Component>, ds: Seq<Demand>, i: int, j: int)
    requires
        components::decomposes(components, ds),
        0 <= i < j < components.len(),
    ensures
        layouts::cell_set(components[i].cells@).disjoint(
            layouts::cell_set(components[j].cells@),
        ),
{
    let a = components[i].cells@;
    let b = components[j].cells@;
    assert(components::is_group(a, ds) && components::is_group(b, ds));
    assert(a[0] < b[0]);
    assert forall|c: int| !(layouts::cell_set(a).contains(c) && layouts::cell_set(b).contains(
        c,
    )) by {
        if layouts::cell_set(a).contains(c) && layouts::cell_set(b).contains(c) {
            let k = choose|k: int| 0 <= k < a.len() && #[trigger] a[k] == c;
            let u = a[k];
            groups::lemma_contains(a, u);
            groups::lemma_contains(b, u);
            assert(components::spoken_of(ds).contains(u as int));
            components::lemma_connected_back(ds, a[0] as int, c);
            components::lemma_connected_join(ds, b[0] as int, c, a[0] as int);
            assert(a.contains(a[0]));
            assert(components::spoken_of(ds).contains(a[0] as int));
            assert(b.contains(a[0]));
            let p = choose|p: int| 0 <= p < b.len() && b[p] == a[0];
            if p > 0 {
                assert(b[0] < b[p]);
            }
        }
    }
}

/// Ranges of groups: finite, whole, and disjoint from the groups outside.
proof fn lemma_cells_of(
    components: Seq<Component>,
    ds: Seq<Demand>,
    n: nat,
    lo: int,
    hi: int,
)
    requires
        components::decomposes(components, ds),
        forall|j: int|
            0 <= j < components.len() ==> layouts::distinct_below(
                (#[trigger] components[j]).cells@,
                n,
            ),
        0 <= lo <= hi <= components.len(),
    ensures
        cells_of(components, lo, hi).finite(),
        cells_of(components, lo, hi).subset_of(layouts::first_cells(n)),
        cells_of(components, lo, hi).len() <= n,
        groups::whole(cells_of(components, lo, hi), ds),
{
    let dom = cells_of(components, lo, hi);
    assert forall|c: int| dom.contains(c) implies layouts::first_cells(n).contains(c) by {
        let i = choose|i: int|
            lo <= i < hi && layouts::cell_set((#[trigger] components[i]).cells@).contains(c);
        layouts::lemma_cell_set_len(components[i].cells@, n);
    }
    layouts::lemma_first_cells(n);
    lemma_set_subset_finite(layouts::first_cells(n), dom);
    lemma_len_subset(dom, layouts::first_cells(n));
    assert forall|i: int, k: int| 0 <= i < ds.len() && 0 <= k < ds[i].cells.len() implies (
    dom.contains(#[trigger] ds[i].cells[k] as int) <==> dom.contains(ds[i].cells[0] as int)) by {
        let a = ds[i].cells[k] as int;
        let b = ds[i].cells[0] as int;
        if dom.contains(a) {
            let j = choose|j: int|
                lo <= j < hi && layouts::cell_set((#[trigger] components[j]).cells@).contains(a);
            groups::lemma_group_whole(components[j].cells@, ds);
            assert(layouts::cell_set(components[j].cells@).contains(ds[i].cells[k] as int));
            assert(layouts::cell_set(components[j].cells@).contains(b));
        }
        if dom.contains(b) {
            let j = choose|j: int|
                lo <= j < hi && layouts::cell_set((#[trigger] components[j]).cells@).contains(b);
            groups::lemma_group_whole(components[j].cells@, ds);
            assert(layouts::cell_set(components[j].cells@).contains(ds[i].cells[k] as int));
        }
    }
}

/// One more group, on either side of a range, is disjoint from it.
proof fn lemma_cells_of_more(
    components: Seq<Component>,
    ds: Seq<Demand>,
    lo: int,
    hi: int,
)
    requires
        components::decomposes(components, ds),
        0 <= lo <= hi <= components.len(),
    ensures
        hi < components.len() ==> cells_of(components, lo, hi + 1) =~= cells_of(
            components,
            lo,
            hi,
        ).union(layouts::cell_set(components[hi].cells@)),
        hi < components.len() ==> cells_of(components, lo, hi).disjoint(
            layouts::cell_set(components[hi].cells@),
        ),
        lo > 0 ==> cells_of(components, lo - 1, hi) =~= cells_of(components, lo, hi).union(
            layouts::cell_set(components[lo - 1].cells@),
        ),
        lo > 0 ==> cells_of(components, lo, hi).disjoint(
            layouts::cell_set(components[lo - 1].cells@),
        ),
{
    let dom = cells_of(components, lo, hi);
    if hi < components.len() {
        let next = layouts::cell_set(components[hi].cells@);
        assert forall|c: int| cells_of(components, lo, hi + 1).contains(c) <==> dom.union(
            next,
        ).contains(c) by {
            if next.contains(c) {
                assert(layouts::cell_set(components[hi].cells@).contains(c));
            }
        }
        assert forall|c: int| !(dom.contains(c) && next.contains(c)) by {
            if dom.contains(c) {
                let i = choose|i: int|
                    lo <= i < hi && layouts::cell_set((#[trigger] components[i]).cells@).contains(
                        c,
                    );
                lemma_groups_disjoint(components, ds, i, hi);
            }
        }
    }
    if lo > 0 {
        let next = layouts::cell_set(components[lo - 1].cells@);
        assert forall|c: int| cells_of(components, lo - 1, hi).contains(c) <==> dom.union(
            next,
        ).contains(c) by {
            if next.contains(c) {
                assert(layouts::cell_set(components[lo - 1].cells@).contains(c));
            }
        }
        assert forall|c: int| !(dom.contains(c) && next.contains(c)) by {
            if dom.contains(c) {
                let i = choose|i: int|
                    lo <= i < hi && layouts::cell_set((#[trigger] components[i]).cells@).contains(
                        c,
                    );
                lemma_groups_disjoint(components, ds, lo - 1, i);
            }
        }
    }
}

/// All groups together are the cells that some number speaks about.
proof fn lemma_cells_of_all(components: Seq<Component>, ds: Seq<Demand>)
    requires
        components::decomposes(components, ds),
        forall|c: int| #[trigger]
            components::spoken_of(ds).contains(c) ==> 0 <= c <= usize::MAX,
    ensures
        cells_of(components, 0, components.len() as int) =~= components::spoken_of(ds),
{
    let said = components::spoken_of(ds);
    let all = cells_of(components, 0, components.len() as int);
    assert forall|c: int| all.contains(c) <==> said.contains(c) by {
        if said.contains(c) {
            let u = c as usize;
            assert(said.contains(u as int));
            let j = choose|j: int|
                0 <= j < components.len() && (#[trigger] components[j]).cells@.contains(u);
            groups::lemma_contains(components[j].cells@, u);
        }
        if all.contains(c) {
            let j = choose|j: int|
                0 <= j < components.len() && layouts::cell_set(
                    (#[trigger] components[j]).cells@,
                ).contains(c);
            let list = components[j].cells@;
            let k = choose|k: int| 0 <= k < list.len() && #[trigger] list[k] == c;
            assert(list.contains(list[k]));
            assert(said.contains(list[k] as int));
        }
    }
}

/// Two tallies of disjoint, whole sets of cells convolve.
proof fn lemma_tallies_join(
    a: Seq<BigNat>,
    b: Seq<BigNat>,
    s: Set<int>,
    t: Set<int>,
    ds: Seq<Demand>,
    out: Seq<BigNat>,
)
    requires
        tallies(a, s, ds),
        tallies(b, t, ds),
        s.finite(),
        t.finite(),
        s.disjoint(t),
        groups::whole(s, ds),
        groups::whole(t, ds),
        counting::poly_wf(out),
        counting::poly(out) == counting::conv(counting::poly(a), counting::poly(b)),
    ensures
        tallies(out, s.union(t), ds),
{
    groups::lemma_groups_join(s, t, ds);
    counting::lemma_conv_counts(
        groups::group_layouts(s, ds),
        groups::group_layouts(t, ds),
        s,
        t,
        counting::poly(a),
        counting::poly(b),
    );
    lemma_set_disjoint_lens(s, t);
    assert(counting::poly(out).len() == out.len());
}

/// No cells have one layout: the empty one.
proof fn lemma_tallies_none(list: Seq<BigNat>, dom: Set<int>, ds: Seq<Demand>)
    requires
        list.len() == 1,
        list[0].wf(),
        list[0]@ == 1,
        dom =~= Set::<int>::empty(),
    ensures
        tallies(list, dom, ds),
{
    let all = groups::group_layouts(dom, ds);
    let p = counting::poly(list);
    let only = Set::<Set<int>>::empty().insert(Set::<int>::empty());
    assert(all =~= only) by {
        assert forall|m: Set<int>| all.contains(m) <==> m == Set::<int>::empty() by {
            if all.contains(m) {
                assert(m =~= Set::<int>::empty());
            }
        }
    }
    assert forall|k: nat| #[trigger] counting::coef(p, k as int) == layouts::with_mines(
        all,
        k,
    ).len() by {
        let part = layouts::with_mines(all, k);
        if k == 0 {
            assert(part =~= only);
        } else {
            assert(part =~= Set::<Set<int>>::empty()) by {
                assert forall|m: Set<int>| !part.contains(m) by {}
            }
        }
    }
}

// ---------------------------------------------------------------------------
// Running convolutions
// ---------------------------------------------------------------------------

/// Machine counts as numbers of any size.
pub(crate) fn widen(counts: &Vec<u64>) -> (out: Vec<BigNat>)
    ensures
        counting::poly_wf(out@),
        counting::poly(out@) =~= groups::widened(counts@),
{
    let mut out: Vec<BigNat> = Vec::new();
    for i in 0..counts.len()
        invariant
            out@.len() == i,
            counting::poly_wf(out@),
            forall|k: int| 0 <= k < i ==> (#[trigger] out@[k])@ == counts@[k],
    {
        out.push(BigNat::from_u64(counts[i]));
    }
    out
}

/// The counts of one group.
fn group_counts(
    solution: &ComponentSolution,
    Ghost(ds): Ghost<Seq<Demand>>,
    Ghost(cells): Ghost<Seq<usize>>,
    Ghost(n): Ghost<nat>,
) -> (out: Vec<BigNat>)
    requires
        layouts::distinct_below(cells, n),
        cells.len() <= usize::MAX,
        components::is_group(cells, ds),
        search::solves(
            *solution,
            cells.len(),
            components::rebased(ds, cells, ds.len() as int),
        ),
    ensures
        tallies(out@, layouts::cell_set(cells), ds),
{
    let out: Vec<BigNat> = widen(&solution.ways);
    proof {
        groups::lemma_group_whole(cells, ds);
        groups::lemma_solution_counts(ds, cells, n, solution);
        layouts::lemma_cell_set_len(cells, n);
        assert(counting::poly(out@).len() == out@.len());
    }
    out
}

/// The counts of the first `j` groups together, for each `j`.
fn running_convolution(
    setup: &SimSetup,
    components: &Vec<Component>,
    solutions: &Vec<ComponentSolution>,
) -> (running: Vec<Vec<BigNat>>)
    requires
        solved(*setup, components@, solutions@),
        setup.hidden_cells@.len() + 2 <= usize::MAX,
    ensures
        running@.len() == components@.len() + 1,
        forall|j: int|
            0 <= j <= components@.len() ==> tallies(
                (#[trigger] running@[j])@,
                cells_of(components@, 0, j),
                layouts::demands(setup.constraints@),
            ),
{
    let ghost ds = layouts::demands(setup.constraints@);
    let ghost n = setup.hidden_cells@.len();
    let mut running: Vec<Vec<BigNat>> = Vec::new();
    let mut one: Vec<BigNat> = Vec::new();
    one.push(BigNat::from_u64(1));
    proof {
        lemma_tallies_none(one@, cells_of(components@, 0, 0), ds);
    }
    running.push(one);
    for j in 0..components.len()
        invariant
            ds == layouts::demands(setup.constraints@),
            n == setup.hidden_cells@.len(),
            n + 2 <= usize::MAX,
            solved(*setup, components@, solutions@),
            running@.len() == j + 1,
            forall|i: int|
                0 <= i <= j ==> tallies(
                    (#[trigger] running@[i])@,
                    cells_of(components@, 0, i),
                    ds,
                ),
    {
        let ghost before = cells_of(components@, 0, j as int);
        let ghost cells = components@[j as int].cells@;
        assert(components::is_group(cells, ds));
        assert(layouts::distinct_below(cells, n));
        assert(search::solves(
            solutions@[j as int],
            cells.len(),
            components::rebased(ds, cells, ds.len() as int),
        ));
        assert(components@[j as int].cells.len() == cells.len());
        let ways: Vec<BigNat> = group_counts(&solutions[j], Ghost(ds), Ghost(cells), Ghost(n));
        proof {
            lemma_cells_of(components@, ds, n, 0, j as int);
            lemma_cells_of(components@, ds, n, 0, j + 1);
            lemma_cells_of_more(components@, ds, 0, j as int);
            layouts::lemma_cell_set_len(cells, n);
            groups::lemma_group_whole(cells, ds);
            lemma_set_disjoint_lens(before, layouts::cell_set(cells));
            assert(tallies(running@[j as int]@, before, ds));
        }
        let next: Vec<BigNat> = counting::convolve(&running[j], &ways);
        proof {
            lemma_tallies_join(
                running@[j as int]@,
                ways@,
                before,
                layouts::cell_set(cells),
                ds,
                next@,
            );
        }
        running.push(next);
    }
    running
}

/// The counts of the last `i` groups together, for each `i`.
fn running_convolution_back(
    setup: &SimSetup,
    components: &Vec<Component>,
    solutions: &Vec<ComponentSolution>,
) -> (running: Vec<Vec<BigNat>>)
    requires
        solved(*setup, components@, solutions@),
        setup.hidden_cells@.len() + 2 <= usize::MAX,
    ensures
        running@.len() == components@.len() + 1,
        forall|i: int|
            0 <= i <= components@.len() ==> tallies(
                (#[trigger] running@[i])@,
                cells_of(components@, components@.len() - i, components@.len() as int),
                layouts::demands(setup.constraints@),
            ),
{
    let ghost ds = layouts::demands(setup.constraints@);
    let ghost n = setup.hidden_cells@.len();
    let len: usize = components.len();
    let mut running: Vec<Vec<BigNat>> = Vec::new();
    let mut one: Vec<BigNat> = Vec::new();
    one.push(BigNat::from_u64(1));
    proof {
        lemma_tallies_none(one@, cells_of(components@, len as int, len as int), ds);
    }
    running.push(one);
    for i in 0..len
        invariant
            len == components@.len(),
            ds == layouts::demands(setup.constraints@),
            n == setup.hidden_cells@.len(),
            n + 2 <= usize::MAX,
            solved(*setup, components@, solutions@),
            running@.len() == i + 1,
            forall|k: int|
                0 <= k <= i ==> tallies(
                    (#[trigger] running@[k])@,
                    cells_of(components@, len - k, len as int),
                    ds,
                ),
    {
        let j: usize = len - 1 - i;
        let ghost after = cells_of(components@, len - i, len as int);
        let ghost cells = components@[j as int].cells@;
        assert(components::is_group(cells, ds));
        assert(layouts::distinct_below(cells, n));
        assert(search::solves(
            solutions@[j as int],
            cells.len(),
            components::rebased(ds, cells, ds.len() as int),
        ));
        assert(components@[j as int].cells.len() == cells.len());
        let ways: Vec<BigNat> = group_counts(&solutions[j], Ghost(ds), Ghost(cells), Ghost(n));
        proof {
            lemma_cells_of(components@, ds, n, len - i, len as int);
            lemma_cells_of(components@, ds, n, j as int, len as int);
            lemma_cells_of_more(components@, ds, len - i, len as int);
            layouts::lemma_cell_set_len(cells, n);
            groups::lemma_group_whole(cells, ds);
            lemma_set_disjoint_lens(after, layouts::cell_set(cells));
            assert(tallies(running@[i as int]@, after, ds));
        }
        let next: Vec<BigNat> = counting::convolve(&running[i], &ways);
        proof {
            lemma_tallies_join(
                running@[i as int]@,
                ways@,
                after,
                layouts::cell_set(cells),
                ds,
                next@,
            );
        }
        running.push(next);
    }
    running
}

// ---------------------------------------------------------------------------
// The whole board
// ---------------------------------------------------------------------------

/// The cells that no number speaks about.
spec fn inside(setup: SimSetup) -> Set<int> {
    layouts::first_cells(setup.hidden_cells@.len()).difference(
        components::spoken_of(layouts::demands(setup.constraints@)),
    )
}

/// Every layout of the problem, whatever its number of mines.
spec fn board_layouts(setup: SimSetup) -> Set<Set<int>> {
    layouts::layouts_over(
        layouts::first_cells(setup.hidden_cells@.len()),
        layouts::demands(setup.constraints@),
    )
}

/// In how many layouts of the problem a cell is a mine.
pub open spec fn held(setup: SimSetup, c: int) -> nat {
    layouts::holding(setup_layouts(setup), c).len()
}

/// The interior: any layout of it agrees with the numbers.
proof fn lemma_inside(setup: SimSetup)
    requires
        setup.wf(),
    ensures
        inside(setup).finite(),
        inside(setup).len() <= setup.hidden_cells@.len(),
        groups::group_layouts(inside(setup), layouts::demands(setup.constraints@))
            =~= layouts::subsets(inside(setup)),
        groups::whole(inside(setup), layouts::demands(setup.constraints@)),
        components::spoken_of(layouts::demands(setup.constraints@)).subset_of(
            layouts::first_cells(setup.hidden_cells@.len()),
        ),
        components::spoken_of(layouts::demands(setup.constraints@)).finite(),
{
    let ds = layouts::demands(setup.constraints@);
    let n = setup.hidden_cells@.len();
    let said = components::spoken_of(ds);
    let dom = inside(setup);
    slices::lemma_covered_below(ds, ds.len() as int, n);
    layouts::lemma_first_cells(n);
    lemma_set_subset_finite(layouts::first_cells(n), dom);
    lemma_len_subset(dom, layouts::first_cells(n));
    assert forall|i: int, k: int| 0 <= i < ds.len() && 0 <= k < ds[i].cells.len() implies !dom.contains(
        #[trigger] ds[i].cells[k] as int,
    ) by {
        assert(layouts::cell_set(ds[i].cells).contains(ds[i].cells[k] as int));
        assert(said.contains(ds[i].cells[k] as int));
    }
    assert forall|i: int| 0 <= i < ds.len() implies !groups::about(#[trigger] ds[i], dom) by {
        if ds[i].cells.len() > 0 {
            assert(!dom.contains(ds[i].cells[0] as int));
        }
    }
    assert forall|i: int, k: int| 0 <= i < ds.len() && 0 <= k < ds[i].cells.len() implies (
    dom.contains(#[trigger] ds[i].cells[k] as int) <==> dom.contains(ds[i].cells[0] as int)) by {
        assert(!dom.contains(ds[i].cells[k] as int));
        assert(!dom.contains(ds[i].cells[0] as int));
    }
}

/// The layouts of the problem, as layouts of all its cells.
proof fn lemma_board_group(setup: SimSetup)
    requires
        setup.wf(),
    ensures
        board_layouts(setup) =~= groups::group_layouts(
            layouts::first_cells(setup.hidden_cells@.len()),
            layouts::demands(setup.constraints@),
        ),
{
    let ds = layouts::demands(setup.constraints@);
    let n = setup.hidden_cells@.len();
    let dom = layouts::first_cells(n);
    assert forall|i: int| 0 <= i < ds.len() implies groups::about(#[trigger] ds[i], dom) by {
        assert(layouts::distinct_below(ds[i].cells, n));
        assert(setup.constraints@[i].0@.len() > 0);
    }
    assert forall|m: Set<int>| board_layouts(setup).contains(m) <==> groups::group_layouts(
        dom,
        ds,
    ).contains(m) by {
        if groups::group_layouts(dom, ds).contains(m) {
            assert forall|i: int| 0 <= i < ds.len() implies layouts::met(#[trigger] ds[i], m) by {
                assert(groups::about(ds[i], dom));
            }
        }
    }
}

/// Filters commute: mines on the board and a mine on a cell.
proof fn lemma_filters(family: Set<Set<int>>, k: nat, c: int)
    ensures
        layouts::holding(layouts::with_mines(family, k), c) =~= layouts::with_mines(
            layouts::holding(family, c),
            k,
        ),
{
}

/// The problem's layouts: those of the groups with those of the interior.
proof fn lemma_board_split(setup: SimSetup, s: Set<int>, t: Set<int>)
    requires
        setup.wf(),
        s.disjoint(t),
        s.union(t) =~= layouts::first_cells(setup.hidden_cells@.len()),
        groups::whole(s, layouts::demands(setup.constraints@)),
        groups::whole(t, layouts::demands(setup.constraints@)),
    ensures
        board_layouts(setup) =~= counting::join(
            groups::group_layouts(s, layouts::demands(setup.constraints@)),
            groups::group_layouts(t, layouts::demands(setup.constraints@)),
        ),
        s.finite(),
        t.finite(),
{
    lemma_board_group(setup);
    groups::lemma_groups_join(s, t, layouts::demands(setup.constraints@));
    let n = setup.hidden_cells@.len();
    layouts::lemma_first_cells(n);
    lemma_set_subset_finite(layouts::first_cells(n), s);
    lemma_set_subset_finite(layouts::first_cells(n), t);
}

/// A short list of binomials counts the layouts of the interior as far as needed.
proof fn lemma_interior_counts(dom: Set<int>, list: Seq<BigNat>, top: nat, total: nat)
    requires
        dom.finite(),
        top == if total < dom.len() {
            total
        } else {
            dom.len()
        },
        list.len() == top + 1,
        forall|k: int| 0 <= k <= top ==> (#[trigger] list[k])@ == counting::binom(dom.len(), k as nat),
    ensures
        counting::counts_to(counting::poly(list), layouts::subsets(dom), total),
{
    let p = counting::poly(list);
    assert forall|k: nat| k <= total implies #[trigger] counting::coef(p, k as int)
        == layouts::with_mines(layouts::subsets(dom), k).len() by {
        counting::lemma_subsets_count(dom, k);
        if k <= top {
            assert(list[k as int]@ == counting::binom(dom.len(), k));
        } else {
            counting::lemma_binom_beyond(dom.len(), k);
        }
    }
}

/// The same for the layouts with a mine on one cell of the interior.
proof fn lemma_interior_held(dom: Set<int>, c: int, list: Seq<BigNat>, top: nat, total: nat)
    requires
        dom.finite(),
        dom.contains(c),
        top == if total < dom.len() {
            total
        } else {
            dom.len()
        },
        list.len() == top + 1,
        list[0]@ == 0,
        forall|k: int|
            1 <= k <= top ==> (#[trigger] list[k])@ == counting::binom(
                (dom.len() - 1) as nat,
                (k - 1) as nat,
            ),
    ensures
        counting::counts_to(
            counting::poly(list),
            layouts::holding(layouts::subsets(dom), c),
            total,
        ),
{
    let p = counting::poly(list);
    let family = layouts::holding(layouts::subsets(dom), c);
    assert forall|k: nat| k <= total implies #[trigger] counting::coef(p, k as int)
        == layouts::with_mines(family, k).len() by {
        lemma_filters(layouts::subsets(dom), k, c);
        let part = layouts::with_mines(family, k);
        if k == 0 {
            assert(part =~= Set::<Set<int>>::empty()) by {
                assert forall|m: Set<int>| !part.contains(m) by {
                    if part.contains(m) {
                        layouts::lemma_subsets_finite(dom);
                        assert(layouts::subsets(dom).contains(m));
                        assert(m.finite());
                        assert(m =~= Set::<int>::empty());
                    }
                }
            }
            assert(list[0]@ == 0);
        } else {
            counting::lemma_holding_count(dom, c, k);
            counting::lemma_subsets_count(dom.remove(c), (k - 1) as nat);
            if k <= top {
                assert(list[k as int]@ == counting::binom(
                    (dom.len() - 1) as nat,
                    (k - 1) as nat,
                ));
            } else {
                counting::lemma_binom_beyond((dom.len() - 1) as nat, (k - 1) as nat);
            }
        }
    }
}

/// The counts of the interior, and those with a mine on one of its cells.
fn interior_counts(len: usize, total: usize) -> (result: (Vec<BigNat>, Vec<BigNat>))
    requires
        len < usize::MAX,
    ensures
        counting::poly_wf(result.0@),
        counting::poly_wf(result.1@),
        ({
            let top = if total < len {
                total
            } else {
                len
            };
            &&& result.0@.len() == top + 1
            &&& result.1@.len() == top + 1
            &&& forall|k: int|
                0 <= k <= top ==> (#[trigger] result.0@[k])@ == counting::binom(
                    len as nat,
                    k as nat,
                )
            &&& result.1@[0]@ == 0
            &&& forall|k: int|
                1 <= k <= top ==> (#[trigger] result.1@[k])@ == counting::binom(
                    (len - 1) as nat,
                    (k - 1) as nat,
                )
        }),
{
    let top: usize = if total < len {
        total
    } else {
        len
    };
    let ways: Vec<BigNat> = counting::binomials(len, top);
    let mut held: Vec<BigNat> = Vec::new();
    held.push(BigNat::zero());
    if top > 0 {
        let mut less: Vec<BigNat> = counting::binomials(len - 1, top - 1);
        let ghost row = less@;
        held.append(&mut less);
        proof {
            assert forall|k: int| 1 <= k <= top implies (#[trigger] held@[k])@ == counting::binom(
                (len - 1) as nat,
                (k - 1) as nat,
            ) by {
                assert(held@[k] == row[k - 1]);
            }
            assert forall|k: int| 0 <= k < held@.len() implies (#[trigger] held@[k]).wf() by {
                if k > 0 {
                    assert(held@[k] == row[k - 1]);
                }
            }
        }
    }
    (ways, held)
}

/// Weighs a cell's counts by the ways the rest of the board has for each of them.
fn weigh(
    cell_ways: &Vec<u64>,
    share: &Vec<BigNat>,
    total: usize,
    Ghost(rest): Ghost<Seq<nat>>,
) -> (sum: BigNat)
    requires
        share@.len() == cell_ways@.len(),
        counting::poly_wf(share@),
        forall|k: int|
            0 <= k < share@.len() && k <= total ==> (#[trigger] share@[k])@ == counting::coef(
                rest,
                total - k,
            ),
    ensures
        sum.wf(),
        sum@ == counting::conv_at(groups::widened(cell_ways@), rest, total as int),
{
    let ghost w = groups::widened(cell_ways@);
    let mut sum = BigNat::zero();
    let mut k: usize = 0;
    while k < cell_ways.len() && k <= total
        invariant
            w == groups::widened(cell_ways@),
            share@.len() == cell_ways@.len(),
            counting::poly_wf(share@),
            forall|j: int|
                0 <= j < share@.len() && j <= total ==> (#[trigger] share@[j])@ == counting::coef(
                    rest,
                    total - j,
                ),
            k <= cell_ways@.len(),
            k <= total + 1,
            sum.wf(),
            sum@ == counting::conv_sum(w, rest, total as int, k as int),
        decreases cell_ways@.len() - k,
    {
        assert(share@[k as int].wf());
        let ways: u64 = cell_ways[k];
        let ghost y = counting::coef(rest, total - k);
        if ways != 0 {
            let term: BigNat = share[k].times_small(ways);
            sum = sum.plus(&term);
            assert(y * ways as nat == ways as nat * y) by (nonlinear_arith);
        } else {
            assert(0nat * y == 0) by (nonlinear_arith);
        }
        k = k + 1;
    }
    proof {
        if k <= total {
            counting::lemma_conv_tail(w, rest, total as int, k as int, total + 1);
        }
    }
    sum
}

/// For each number of mines in a group, how many ways the rest of the board has.
fn shares(rest: &Vec<BigNat>, interior: &Vec<BigNat>, total: usize, len: usize) -> (share: Vec<
    BigNat,
>)
    requires
        counting::poly_wf(rest@),
        counting::poly_wf(interior@),
    ensures
        share@.len() == len,
        counting::poly_wf(share@),
        forall|k: int|
            0 <= k < len && k <= total ==> (#[trigger] share@[k])@ == counting::conv_at(
                counting::poly(rest@),
                counting::poly(interior@),
                total - k,
            ),
{
    let mut share: Vec<BigNat> = Vec::new();
    for k in 0..len
        invariant
            counting::poly_wf(rest@),
            counting::poly_wf(interior@),
            share@.len() == k,
            counting::poly_wf(share@),
            forall|j: int|
                0 <= j < k && j <= total ==> (#[trigger] share@[j])@ == counting::conv_at(
                    counting::poly(rest@),
                    counting::poly(interior@),
                    total - j,
                ),
    {
        if k <= total {
            share.push(counting::product_at(rest, interior, total - k));
        } else {
            share.push(BigNat::zero());
        }
    }
    share
}

/// The cells of every group but one.
spec fn others(components: Seq<Component>, j: int) -> Set<int> {
    cells_of(components, 0, j).union(cells_of(components, j + 1, components.len() as int))
}

/// How many layouts everything but one group has, for each number of mines up to `total`.
spec fn rest_counts(setup: SimSetup, components: Seq<Component>, j: int) -> Seq<nat> {
    let t = others(components, j).union(inside(setup));
    Seq::new(
        (setup.mines_to_place + 1) as nat,
        |x: int|
            layouts::with_mines(
                groups::group_layouts(t, layouts::demands(setup.constraints@)),
                x as nat,
            ).len(),
    )
}

/// Everything but one group: the cells, and how they lie.
proof fn lemma_others(
    setup: SimSetup,
    components: Seq<Component>,
    solutions: Seq<ComponentSolution>,
    j: int,
)
    requires
        solved(setup, components, solutions),
        setup.hidden_cells@.len() <= usize::MAX,
        0 <= j < components.len(),
    ensures
        ({
            let ds = layouts::demands(setup.constraints@);
            let group = layouts::cell_set(components[j].cells@);
            let o = others(components, j);
            let t = o.union(inside(setup));
            &&& cells_of(components, 0, j).disjoint(
                cells_of(components, j + 1, components.len() as int),
            )
            &&& groups::whole(o, ds)
            &&& groups::whole(t, ds)
            &&& groups::whole(group, ds)
            &&& o.finite()
            &&& t.finite()
            &&& group.finite()
            &&& o.disjoint(inside(setup))
            &&& group.disjoint(t)
            &&& group.union(t) =~= layouts::first_cells(setup.hidden_cells@.len())
        }),
{
    let ds = layouts::demands(setup.constraints@);
    let n = setup.hidden_cells@.len();
    let p = components.len() as int;
    let group = layouts::cell_set(components[j].cells@);
    let a = cells_of(components, 0, j);
    let b = cells_of(components, j + 1, p);
    let o = others(components, j);
    let t = o.union(inside(setup));
    lemma_inside(setup);
    lemma_cells_of(components, ds, n, 0, j);
    lemma_cells_of(components, ds, n, j + 1, p);
    lemma_cells_of(components, ds, n, 0, p);
    lemma_cells_of_more(components, ds, 0, j);
    lemma_cells_of_more(components, ds, j + 1, p);
    assert(components::is_group(components[j].cells@, ds));
    groups::lemma_group_whole(components[j].cells@, ds);
    layouts::lemma_cell_set_len(components[j].cells@, n);
    assert forall|c: int| #[trigger] components::spoken_of(ds).contains(c) implies 0 <= c
        <= usize::MAX by {
        assert(layouts::first_cells(n).contains(c));
    }
    lemma_cells_of_all(components, ds);
    assert(a.disjoint(b)) by {
        assert forall|c: int| !(a.contains(c) && b.contains(c)) by {
            if a.contains(c) && b.contains(c) {
                let x = choose|x: int|
                    0 <= x < j && layouts::cell_set((#[trigger] components[x]).cells@).contains(c);
                let y = choose|y: int|
                    j + 1 <= y < p && layouts::cell_set(
                        (#[trigger] components[y]).cells@,
                    ).contains(c);
                lemma_groups_disjoint(components, ds, x, y);
            }
        }
    }
    groups::lemma_groups_join(a, b, ds);
    let all = cells_of(components, 0, p);
    assert forall|c: int| all.contains(c) <==> group.contains(c) || o.contains(c) by {
        if all.contains(c) {
            let x = choose|x: int|
                0 <= x < p && layouts::cell_set((#[trigger] components[x]).cells@).contains(c);
            if x < j {
                assert(a.contains(c));
            } else if x > j {
                assert(b.contains(c));
            }
        }
        if group.contains(c) {
            assert(layouts::cell_set(components[j].cells@).contains(c));
        }
    }
    assert(o.disjoint(inside(setup))) by {
        assert forall|c: int| !(o.contains(c) && inside(setup).contains(c)) by {
            if o.contains(c) {
                assert(all.contains(c));
            }
        }
    }
    groups::lemma_groups_join(o, inside(setup), ds);
    assert(group.disjoint(t)) by {
        assert forall|c: int| !(group.contains(c) && t.contains(c)) by {
            if group.contains(c) {
                assert(all.contains(c));
            }
        }
    }
    assert(group.union(t) =~= layouts::first_cells(n)) by {
        assert forall|c: int| group.union(t).contains(c) <==> layouts::first_cells(n).contains(
            c,
        ) by {
            if layouts::first_cells(n).contains(c) && !inside(setup).contains(c) {
                assert(all.contains(c));
            }
            if group.contains(c) || o.contains(c) {
                assert(all.contains(c));
            }
        }
    }
}

/// The ways of everything but one group are the convolution of the other groups'
/// with the interior's.
proof fn lemma_rest_counts(
    setup: SimSetup,
    components: Seq<Component>,
    solutions: Seq<ComponentSolution>,
    j: int,
    rest: Seq<BigNat>,
    interior: Seq<BigNat>,
    x: nat,
)
    requires
        solved(setup, components, solutions),
        setup.hidden_cells@.len() <= usize::MAX,
        0 <= j < components.len(),
        tallies(rest, others(components, j), layouts::demands(setup.constraints@)),
        counting::counts_to(
            counting::poly(interior),
            layouts::subsets(inside(setup)),
            setup.mines_to_place as nat,
        ),
        x <= setup.mines_to_place,
    ensures
        counting::coef(rest_counts(setup, components, j), x as int) == counting::conv_at(
            counting::poly(rest),
            counting::poly(interior),
            x as int,
        ),
{
    let ds = layouts::demands(setup.constraints@);
    let o = others(components, j);
    lemma_others(setup, components, solutions, j);
    lemma_inside(setup);
    groups::lemma_groups_join(o, inside(setup), ds);
    let f = groups::group_layouts(o, ds);
    let g = layouts::subsets(inside(setup));
    assert(counting::counts_to(counting::poly(rest), f, x));
    assert(counting::counts_to(counting::poly(interior), g, x));
    counting::lemma_join_counts(
        f,
        g,
        o,
        inside(setup),
        counting::poly(rest),
        counting::poly(interior),
        x,
    );
}

/// A cell's counts, weighed by the ways of the rest, count the problem's layouts in
/// which it is a mine.
proof fn lemma_numerator(
    setup: SimSetup,
    components: Seq<Component>,
    solutions: Seq<ComponentSolution>,
    j: int,
    l: int,
)
    requires
        solved(setup, components, solutions),
        setup.hidden_cells@.len() <= usize::MAX,
        0 <= j < components.len(),
        components[j].cells@.len() <= usize::MAX,
        0 <= l < components[j].cells@.len(),
    ensures
        counting::conv_at(
            groups::widened(solutions[j].cell_ways@[l]@),
            rest_counts(setup, components, j),
            setup.mines_to_place as int,
        ) == held(setup, components[j].cells@[l] as int),
{
    let ds = layouts::demands(setup.constraints@);
    let n = setup.hidden_cells@.len();
    let total = setup.mines_to_place as nat;
    let cells = components[j].cells@;
    let c = cells[l] as int;
    let group = layouts::cell_set(cells);
    let t = others(components, j).union(inside(setup));
    let f = groups::group_layouts(group, ds);
    let g = groups::group_layouts(t, ds);
    let w = groups::widened(solutions[j].cell_ways@[l]@);
    let r = rest_counts(setup, components, j);
    lemma_others(setup, components, solutions, j);
    assert(search::solves(
        solutions[j],
        cells.len(),
        components::rebased(ds, cells, ds.len() as int),
    ));
    groups::lemma_solution_counts(ds, cells, n, &solutions[j]);
    lemma_board_split(setup, group, t);
    assert(group.contains(c)) by {
        assert(cells[l] == c);
    }
    counting::lemma_join_holding(f, g, group, t, c);
    let part = layouts::holding(f, c);
    assert(counting::lives_on(part, group));
    assert(counting::counts(w, part));
    assert(counting::counts_to(r, g, total)) by {
        assert forall|k: nat| k <= total implies #[trigger] counting::coef(r, k as int)
            == layouts::with_mines(g, k).len() by {}
    }
    counting::lemma_join_counts(part, g, group, t, w, r, total);
    lemma_filters(board_layouts(setup), total, c);
}

/// Fills in how often each cell of one group is a mine.
fn combine_group(
    setup: &SimSetup,
    components: &Vec<Component>,
    solutions: &Vec<ComponentSolution>,
    j: usize,
    rest: &Vec<BigNat>,
    interior: &Vec<BigNat>,
    mines: &mut Vec<BigNat>,
)
    requires
        solved(*setup, components@, solutions@),
        j < components@.len(),
        tallies(rest@, others(components@, j as int), layouts::demands(setup.constraints@)),
        counting::poly_wf(interior@),
        counting::counts_to(
            counting::poly(interior@),
            layouts::subsets(inside(*setup)),
            setup.mines_to_place as nat,
        ),
        old(mines)@.len() == setup.hidden_cells@.len(),
        counting::poly_wf(old(mines)@),
    ensures
        final(mines)@.len() == old(mines)@.len(),
        counting::poly_wf(final(mines)@),
        forall|c: int|
            0 <= c < old(mines)@.len() ==> (#[trigger] final(mines)@[c])@ == if layouts::cell_set(
                components@[j as int].cells@,
            ).contains(c) {
                held(*setup, c)
            } else {
                old(mines)@[c]@
            },
{
    let ghost start = mines@;
    let ghost n = setup.hidden_cells@.len();
    let total: usize = setup.mines_to_place;
    let solution: &ComponentSolution = &solutions[j];
    let cells: &Vec<usize> = &components[j].cells;
    let ghost ds = layouts::demands(setup.constraints@);
    let ghost counts = rest_counts(*setup, components@, j as int);
    proof {
        assert(search::solves(
            solutions@[j as int],
            cells@.len(),
            components::rebased(ds, cells@, ds.len() as int),
        ));
        assert(layouts::distinct_below(cells@, n));
        assert(n == setup.hidden_cells.len());
    }
    let share: Vec<BigNat> = shares(rest, interior, total, solution.ways.len());
    proof {
        assert forall|k: int| 0 <= k < share@.len() && k <= total implies (
        #[trigger] share@[k])@ == counting::coef(counts, total - k) by {
            lemma_rest_counts(
                *setup,
                components@,
                solutions@,
                j as int,
                rest@,
                interior@,
                (total - k) as nat,
            );
        }
    }
    for l in 0..cells.len()
        invariant
            solved(*setup, components@, solutions@),
            j < components@.len(),
            cells@ == components@[j as int].cells@,
            n == setup.hidden_cells@.len(),
            n <= usize::MAX,
            layouts::distinct_below(cells@, n),
            *solution == solutions@[j as int],
            search::solves(
                *solution,
                cells@.len(),
                components::rebased(ds, cells@, ds.len() as int),
            ),
            total == setup.mines_to_place,
            counts == rest_counts(*setup, components@, j as int),
            share@.len() == cells@.len() + 1,
            counting::poly_wf(share@),
            forall|k: int|
                0 <= k < share@.len() && k <= total ==> (#[trigger] share@[k])@ == counting::coef(
                    counts,
                    total - k,
                ),
            start.len() == n,
            mines@.len() == n,
            counting::poly_wf(mines@),
            forall|c: int|
                0 <= c < n ==> (#[trigger] mines@[c])@ == if layouts::cell_set(
                    cells@.take(l as int),
                ).contains(c) {
                    held(*setup, c)
                } else {
                    start[c]@
                },
    {
        assert(solution.cell_ways@[l as int]@.len() == cells@.len() + 1);
        let ghost before = mines@;
        let cell: usize = cells[l];
        let ways: BigNat = weigh(&solution.cell_ways[l], &share, total, Ghost(counts));
        proof {
            assert(cells.len() == cells@.len());
            lemma_numerator(*setup, components@, solutions@, j as int, l as int);
            slices::lemma_cell_set_push(cells@.take(l as int), cell);
            assert(cells@.take(l as int).push(cell) =~= cells@.take(l + 1));
        }
        mines.set(cell, ways);
        proof {
            assert forall|c: int| 0 <= c < n implies (#[trigger] mines@[c])@
                == if layouts::cell_set(cells@.take(l + 1)).contains(c) {
                held(*setup, c)
            } else {
                start[c]@
            } by {
                assert(before[c]@ == if layouts::cell_set(cells@.take(l as int)).contains(c) {
                    held(*setup, c)
                } else {
                    start[c]@
                });
            }
        }
    }
    assert(cells@.take(cells@.len() as int) =~= cells@);
}

/// How often each cell of a problem is a mine, given the solution of each group.
///
/// `None` means that no layout agrees with the numbers and the number of mines.
pub fn combine(
    setup: &SimSetup,
    components: &Vec<Component>,
    solutions: &Vec<ComponentSolution>,
    interior: &Vec<usize>,
) -> (result: Option<Combined>)
    requires
        solved(*setup, components@, solutions@),
        interior@ == interior_of(*setup),
        setup.hidden_cells@.len() + 2 <= usize::MAX,
    ensures
        result is None <==> setup_layouts(*setup).len() == 0,
        result matches Some(combined) ==> {
            &&& combined.total.wf()
            &&& combined.total@ == setup_layouts(*setup).len()
            &&& counting::poly_wf(combined.mines@)
            &&& combined.mines@.len() == setup.hidden_cells@.len()
            &&& forall|c: int|
                0 <= c < setup.hidden_cells@.len() ==> (#[trigger] combined.mines@[c])@ == held(
                    *setup,
                    c,
                )
        },
{
    let n: usize = setup.hidden_cells.len();
    let total_mines: usize = setup.mines_to_place;
    let ghost ds = layouts::demands(setup.constraints@);
    let ghost ins = inside(*setup);
    let ghost said = components::spoken_of(ds);
    let len: usize = components.len();
    proof {
        lemma_inside(*setup);
        propagate::lemma_listed(ins, n);
        assert(ins.intersect(layouts::first_cells(n as nat)) =~= ins);
        layouts::lemma_cell_set_len(interior@, n as nat);
    }
    let (inner, inner_held): (Vec<BigNat>, Vec<BigNat>) = interior_counts(
        interior.len(),
        total_mines,
    );
    let ghost top = (if total_mines < ins.len() {
        total_mines as nat
    } else {
        ins.len()
    });
    proof {
        lemma_interior_counts(ins, inner@, top, total_mines as nat);
    }
    let prefix: Vec<Vec<BigNat>> = running_convolution(setup, components, solutions);
    let suffix: Vec<Vec<BigNat>> = running_convolution_back(setup, components, solutions);
    assert(tallies(prefix@[len as int]@, cells_of(components@, 0, len as int), ds));
    let total: BigNat = counting::product_at(&prefix[len], &inner, total_mines);
    proof {
        assert forall|c: int| #[trigger] said.contains(c) implies 0 <= c <= usize::MAX by {
            assert(layouts::first_cells(n as nat).contains(c));
        }
        lemma_cells_of_all(components@, ds);
        lemma_cells_of(components@, ds, n as nat, 0, len as int);
        assert(said.union(ins) =~= layouts::first_cells(n as nat));
        assert(said.disjoint(ins));
        lemma_board_split(*setup, said, ins);
        counting::lemma_join_counts(
            groups::group_layouts(said, ds),
            layouts::subsets(ins),
            said,
            ins,
            counting::poly(prefix@[len as int]@),
            counting::poly(inner@),
            total_mines as nat,
        );
        assert(total@ == setup_layouts(*setup).len());
    }
    if total.is_zero() {
        return None;
    }
    let mut mines: Vec<BigNat> = Vec::new();
    for i in 0..n
        invariant
            mines@.len() == i,
            counting::poly_wf(mines@),
    {
        mines.push(BigNat::zero());
    }
    for j in 0..len
        invariant
            n == setup.hidden_cells@.len(),
            n + 2 <= usize::MAX,
            len == components@.len(),
            total_mines == setup.mines_to_place,
            ds == layouts::demands(setup.constraints@),
            ins == inside(*setup),
            solved(*setup, components@, solutions@),
            counting::poly_wf(inner@),
            counting::counts_to(
                counting::poly(inner@),
                layouts::subsets(ins),
                total_mines as nat,
            ),
            prefix@.len() == len + 1,
            suffix@.len() == len + 1,
            forall|i: int|
                0 <= i <= len ==> tallies(
                    (#[trigger] prefix@[i])@,
                    cells_of(components@, 0, i),
                    ds,
                ),
            forall|i: int|
                0 <= i <= len ==> tallies(
                    (#[trigger] suffix@[i])@,
                    cells_of(components@, len - i, len as int),
                    ds,
                ),
            mines@.len() == n,
            counting::poly_wf(mines@),
            forall|c: int|
                0 <= c < n && cells_of(components@, 0, j as int).contains(c) ==> (
                #[trigger] mines@[c])@ == held(*setup, c),
    {
        let after: usize = len - 1 - j;
        let ghost a = cells_of(components@, 0, j as int);
        let ghost b = cells_of(components@, j + 1, len as int);
        proof {
            lemma_others(*setup, components@, solutions@, j as int);
            lemma_cells_of(components@, ds, n as nat, 0, j as int);
            lemma_cells_of(components@, ds, n as nat, j + 1, len as int);
            assert(tallies(prefix@[j as int]@, a, ds));
            assert(tallies(suffix@[after as int]@, b, ds));
            lemma_set_disjoint_lens(a, b);
            assert(a.union(b).subset_of(layouts::first_cells(n as nat)));
            layouts::lemma_first_cells(n as nat);
            lemma_len_subset(a.union(b), layouts::first_cells(n as nat));
        }
        let rest: Vec<BigNat> = counting::convolve(&prefix[j], &suffix[after]);
        proof {
            lemma_tallies_join(prefix@[j as int]@, suffix@[after as int]@, a, b, ds, rest@);
        }
        let ghost before = mines@;
        combine_group(setup, components, solutions, j, &rest, &inner, &mut mines);
        proof {
            lemma_cells_of_more(components@, ds, 0, j as int);
            assert forall|c: int|
                0 <= c < n && cells_of(components@, 0, j + 1).contains(c) implies (
            #[trigger] mines@[c])@ == held(*setup, c) by {
                if a.contains(c) {
                    assert(before[c]@ == held(*setup, c));
                }
            }
        }
    }
    let inner_total: BigNat = counting::product_at(&prefix[len], &inner_held, total_mines);
    proof {
        assert forall|c: int| ins.contains(c) implies inner_total@ == #[trigger] held(
            *setup,
            c,
        ) by {
            lemma_interior_held(ins, c, inner_held@, top, total_mines as nat);
            let f = groups::group_layouts(said, ds);
            let g = layouts::subsets(ins);
            let part = layouts::holding(g, c);
            assert(counting::lives_on(part, ins));
            counting::lemma_join_counts(
                f,
                part,
                said,
                ins,
                counting::poly(prefix@[len as int]@),
                counting::poly(inner_held@),
                total_mines as nat,
            );
            counting::lemma_join_swap(f, part);
            counting::lemma_join_swap(f, g);
            counting::lemma_join_holding(g, f, ins, said, c);
            lemma_filters(board_layouts(*setup), total_mines as nat, c);
        }
    }
    for i in 0..interior.len()
        invariant
            n == setup.hidden_cells@.len(),
            layouts::distinct_below(interior@, n as nat),
            layouts::cell_set(interior@) =~= ins,
            inner_total.wf(),
            forall|c: int| ins.contains(c) ==> inner_total@ == #[trigger] held(*setup, c),
            mines@.len() == n,
            counting::poly_wf(mines@),
            forall|c: int|
                0 <= c < n && said.contains(c) ==> (#[trigger] mines@[c])@ == held(*setup, c),
            forall|k: int| 0 <= k < i ==> mines@[(#[trigger] interior@[k]) as int]@ == held(
                *setup,
                interior@[k] as int,
            ),
    {
        let cell: usize = interior[i];
        let ghost before = mines@;
        assert(layouts::cell_set(interior@).contains(interior@[i as int] as int));
        assert(inner_total@ == held(*setup, cell as int));
        mines.set(cell, inner_total.copy());
        proof {
            assert forall|k: int| 0 <= k < i + 1 implies mines@[(
            #[trigger] interior@[k]) as int]@ == held(*setup, interior@[k] as int) by {
                if k < i {
                    assert(interior@[k] != interior@[i as int]);
                }
            }
            assert forall|c: int| 0 <= c < n && said.contains(c) implies (
            #[trigger] mines@[c])@ == held(*setup, c) by {
                if c != cell {
                    assert(before[c]@ == held(*setup, c));
                }
            }
        }
    }
    proof {
        assert forall|c: int| 0 <= c < n implies (#[trigger] mines@[c])@ == held(*setup, c) by {
            if !said.contains(c) {
                assert(ins.contains(c));
                assert(layouts::cell_set(interior@).contains(c));
                let k = choose|k: int| 0 <= k < interior@.len() && #[trigger] interior@[k] == c;
                assert(mines@[interior@[k] as int]@ == held(*setup, interior@[k] as int));
            }
        }
    }
    Some(Combined { total, mines })
}

/// The mines of a problem are all accounted for: over all cells, the layouts that
/// put a mine there add up to the number of mines times the number of layouts.
pub proof fn law_mines_add_up(setup: SimSetup)
    ensures
        counting::held_sum(setup_layouts(setup), setup.hidden_cells@.len())
            == setup.mines_to_place * setup_layouts(setup).len(),
{
    let n = setup.hidden_cells@.len();
    layouts::lemma_first_cells(n);
    layouts::lemma_layouts_finite(
        layouts::first_cells(n),
        layouts::demands(setup.constraints@),
    );
    lemma_set_subset_finite(board_layouts(setup), setup_layouts(setup));
    counting::lemma_held_sum(setup_layouts(setup), n, setup.mines_to_place as nat);
}

/// A layout with two cells exchanged.
spec fn swapped(m: Set<int>, a: int, b: int) -> Set<int> {
    Set::new(|c: int| m.contains(exchanged(a, b, c)))
}

/// Which cell takes the place of a cell when two are exchanged.
spec fn exchanged(a: int, b: int, c: int) -> int {
    if c == a {
        b
    } else if c == b {
        a
    } else {
        c
    }
}

/// Exchanging two cells that no number speaks about makes a layout of a layout.
proof fn lemma_swapped(setup: SimSetup, a: int, b: int, m: Set<int>)
    requires
        setup.wf(),
        inside(setup).contains(a),
        inside(setup).contains(b),
        setup_layouts(setup).contains(m),
    ensures
        setup_layouts(setup).contains(swapped(m, a, b)),
{
    let n = setup.hidden_cells@.len();
    let ds = layouts::demands(setup.constraints@);
    let other = swapped(m, a, b);
    let f = |c: int| exchanged(a, b, c);
    layouts::lemma_first_cells(n);
    lemma_set_subset_finite(layouts::first_cells(n), m);
    assert(m.map(f) =~= other) by {
        assert forall|c: int| other.contains(c) implies m.map(f).contains(c) by {
            assert(f(f(c)) == c);
        }
    }
    assert(vstd::relations::injective_on(f, m));
    lemma_map_size(m, other, f);
    assert(other.subset_of(layouts::first_cells(n)));
    assert forall|i: int| 0 <= i < ds.len() implies layouts::met(#[trigger] ds[i], other) by {
        let cells = ds[i].cells;
        assert(layouts::met(ds[i], m));
        assert forall|k: int| 0 <= k < cells.len() implies (m.contains(#[trigger] cells[k] as int)
            <==> other.contains(cells[k] as int)) by {
            let c = cells[k] as int;
            assert(layouts::cell_set(cells).contains(c));
            assert(components::spoken_of(ds).contains(c));
        }
        reduce::lemma_count_map(cells, cells, m, other);
    }
}

/// Every cell that no number speaks about is as likely a mine as every other: nothing
/// distinguishes them.
pub proof fn law_interior_cells_are_alike(setup: SimSetup, a: int, b: int)
    requires
        setup.wf(),
        0 <= a < setup.hidden_cells@.len(),
        0 <= b < setup.hidden_cells@.len(),
        !components::spoken_of(layouts::demands(setup.constraints@)).contains(a),
        !components::spoken_of(layouts::demands(setup.constraints@)).contains(b),
    ensures
        held(setup, a) == held(setup, b),
{
    let all = setup_layouts(setup);
    let x = layouts::holding(all, a);
    let y = layouts::holding(all, b);
    let f = |m: Set<int>| swapped(m, a, b);
    let n = setup.hidden_cells@.len();
    layouts::lemma_first_cells(n);
    layouts::lemma_layouts_finite(
        layouts::first_cells(n),
        layouts::demands(setup.constraints@),
    );
    lemma_set_subset_finite(board_layouts(setup), x);
    assert forall|m: Set<int>| x.contains(m) implies y.contains(#[trigger] f(m)) by {
        lemma_swapped(setup, a, b, m);
    }
    assert forall|m: Set<int>| y.contains(m) implies exists|k: Set<int>| x.contains(k) && f(k)
        == m by {
        lemma_swapped(setup, a, b, m);
        let k = swapped(m, a, b);
        assert(f(k) =~= m);
        assert(x.contains(k));
    }
    assert(vstd::relations::injective_on(f, x)) by {
        assert forall|m: Set<int>, k: Set<int>|
            x.contains(m) && x.contains(k) && #[trigger] f(m) == #[trigger] f(k) implies m == k by {
            assert(swapped(f(m), a, b) =~= m);
            assert(swapped(f(k), a, b) =~= k);
        }
    }
    assert(x.map(f) =~= y) by {
        assert forall|m: Set<int>| y.contains(m) implies x.map(f).contains(m) by {
            let k = choose|k: Set<int>| x.contains(k) && f(k) == m;
        }
    }
    lemma_map_size(x, y, f);
}

} // verus!
