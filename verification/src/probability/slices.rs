//! Layouts that extend a partial assignment.
//!
//! The depth-first search fixes cells one number at a time. What it still has to
//! count below a node is a slice of a family of layouts: those that agree with
//! the cells fixed so far. This module proves how a slice falls apart when the
//! next number's cells are fixed in every possible way.

use vstd::prelude::*;
use vstd::set_lib::*;
use crate::combos;
use crate::layouts;
use crate::layouts::Demand;

verus! {

/// The members of a family whose mines inside `fixed` are exactly `mines`.
pub open spec fn slice(family: Set<Set<int>>, fixed: Set<int>, mines: Set<int>) -> Set<Set<int>> {
    family.filter(|g: Set<int>| g.intersect(fixed) == mines)
}

/// The positions of `cells` that hold a mine of `layout`, ascending.
pub open spec fn positions(cells: Seq<usize>, layout: Set<int>) -> Seq<int>
    decreases cells.len(),
{
    if cells.len() == 0 {
        Seq::empty()
    } else {
        let front = positions(cells.drop_last(), layout);
        if layout.contains(cells.last() as int) {
            front.push(cells.len() - 1)
        } else {
            front
        }
    }
}

/// The cells at the chosen positions.
pub open spec fn picked(cells: Seq<usize>, combo: Seq<int>) -> Set<int> {
    Set::new(|c: int| exists|i: int| 0 <= i < combo.len() && #[trigger] cells[combo[i]] == c)
}

/// The entries of `cells` outside `fixed`, in order.
pub open spec fn outside(cells: Seq<usize>, fixed: Set<int>) -> Seq<usize>
    decreases cells.len(),
{
    if cells.len() == 0 {
        Seq::empty()
    } else {
        let front = outside(cells.drop_last(), fixed);
        if fixed.contains(cells.last() as int) {
            front
        } else {
            front.push(cells.last())
        }
    }
}

/// The part of a slice that a walk up to (not including) `combo` has covered.
pub open spec fn early(
    family: Set<Set<int>>,
    fixed: Set<int>,
    mines: Set<int>,
    cells: Seq<usize>,
    combo: Seq<int>,
) -> Set<Set<int>> {
    slice(family, fixed, mines).filter(
        |g: Set<int>| combos::before(positions(cells, g), combo),
    )
}

/// The cells that the first `d` numbers speak about.
pub open spec fn covered(ds: Seq<Demand>, d: int) -> Set<int> {
    Set::new(
        |c: int|
            exists|i: int|
                0 <= i < d && i < ds.len() && (#[trigger] layouts::cell_set(
                    ds[i].cells,
                )).contains(c),
    )
}

/// The ways of fixing the cells of the first `d` numbers that meet those numbers.
pub open spec fn partials(ds: Seq<Demand>, d: int) -> Set<Set<int>> {
    layouts::layouts_over(covered(ds, d), ds.take(d))
}

/// The search nodes at depth `d` and deeper that extend a partial assignment: one
/// for each way of fixing the cells of the first `d` numbers.
pub open spec fn nodes_below(ds: Seq<Demand>, d: int, fixed: Set<int>, mines: Set<int>) -> nat
    decreases ds.len() + 1 - d,
{
    if d > ds.len() {
        0
    } else {
        slice(partials(ds, d), fixed, mines).len() + nodes_below(ds, d + 1, fixed, mines)
    }
}

/// The nodes that a walk up to (not including) `combo` has visited.
pub open spec fn early_nodes(
    ds: Seq<Demand>,
    d: int,
    fixed: Set<int>,
    mines: Set<int>,
    cells: Seq<usize>,
    combo: Seq<int>,
) -> nat
    decreases ds.len() + 1 - d,
{
    if d > ds.len() {
        0
    } else {
        early(partials(ds, d), fixed, mines, cells, combo).len() + early_nodes(
            ds,
            d + 1,
            fixed,
            mines,
            cells,
            combo,
        )
    }
}

/// How many nodes a search of all the numbers visits: for each depth `d`, one
/// node for each way of fixing the cells of the first `d` numbers to meet them.
pub open spec fn search_nodes(ds: Seq<Demand>) -> nat {
    nodes_below(ds, 0, Set::empty(), Set::empty())
}

// ---------------------------------------------------------------------------
// Positions
// ---------------------------------------------------------------------------

/// What `positions` lists.
pub proof fn lemma_positions(cells: Seq<usize>, layout: Set<int>)
    ensures
        combos::ascending(positions(cells, layout), cells.len() as int),
        positions(cells, layout).len() == layouts::mines_among(cells, layout),
        forall|j: int|
            0 <= j < cells.len() ==> (layout.contains(#[trigger] cells[j] as int) <==> positions(
                cells,
                layout,
            ).contains(j)),
    decreases cells.len(),
{
    if cells.len() > 0 {
        let rest = cells.drop_last();
        lemma_positions(rest, layout);
        let front = positions(rest, layout);
        let all = positions(cells, layout);
        let last = cells.len() - 1;
        assert forall|j: int| 0 <= j < cells.len() implies (layout.contains(
            #[trigger] cells[j] as int,
        ) <==> all.contains(j)) by {
            if j < last {
                assert(rest[j] == cells[j]);
                if front.contains(j) {
                    let i = choose|i: int| 0 <= i < front.len() && front[i] == j;
                    assert(all[i] == j);
                }
                if all.contains(j) {
                    let i = choose|i: int| 0 <= i < all.len() && all[i] == j;
                    assert(front[i] == j);
                }
            } else {
                if layout.contains(cells.last() as int) {
                    assert(all[all.len() - 1] == last);
                }
                if all.contains(j) && !layout.contains(cells.last() as int) {
                    let i = choose|i: int| 0 <= i < all.len() && all[i] == j;
                    assert(front[i] < last);
                }
            }
        }
    }
}

/// An ascending choice is recovered from the layout it makes.
pub proof fn lemma_positions_unique(cells: Seq<usize>, layout: Set<int>, combo: Seq<int>)
    requires
        combos::ascending(combo, cells.len() as int),
        forall|j: int|
            0 <= j < cells.len() ==> (layout.contains(#[trigger] cells[j] as int)
                <==> combo.contains(j)),
    ensures
        positions(cells, layout) == combo,
    decreases cells.len(),
{
    if cells.len() == 0 {
        assert(combo.len() == 0) by {
            if combo.len() > 0 {
                assert(combo[0] < cells.len());
                assert(0 <= combo[0]);
                assert(false);
            }
        }
        assert(combo =~= Seq::empty());
    } else {
        let rest = cells.drop_last();
        let last = cells.len() - 1;
        assert(cells.last() == cells[last]);
        if layout.contains(cells.last() as int) {
            assert(combo.contains(last));
            let i = choose|i: int| 0 <= i < combo.len() && combo[i] == last;
            assert(i == combo.len() - 1) by {
                if i < combo.len() - 1 {
                    assert(combo[i] < combo[combo.len() - 1]);
                }
            }
            let front = combo.drop_last();
            assert(combos::ascending(front, last)) by {
                assert forall|x: int| 0 <= x < front.len() implies 0 <= #[trigger] front[x]
                    < last by {
                    assert(combo[x] < combo[combo.len() - 1]);
                }
            }
            assert forall|j: int| 0 <= j < rest.len() implies (layout.contains(
                #[trigger] rest[j] as int,
            ) <==> front.contains(j)) by {
                assert(rest[j] == cells[j]);
                if combo.contains(j) {
                    let x = choose|x: int| 0 <= x < combo.len() && combo[x] == j;
                    assert(front[x] == j);
                }
                if front.contains(j) {
                    let x = choose|x: int| 0 <= x < front.len() && front[x] == j;
                    assert(combo[x] == j);
                }
            }
            lemma_positions_unique(rest, layout, front);
            assert(combo =~= front.push(last));
        } else {
            assert(combos::ascending(combo, last)) by {
                assert forall|x: int| 0 <= x < combo.len() implies 0 <= #[trigger] combo[x]
                    < last by {
                    assert(combo.contains(combo[x]));
                }
            }
            assert forall|j: int| 0 <= j < rest.len() implies (layout.contains(
                #[trigger] rest[j] as int,
            ) <==> combo.contains(j)) by {
                assert(rest[j] == cells[j]);
            }
            lemma_positions_unique(rest, layout, combo);
        }
    }
}

// ---------------------------------------------------------------------------
// What a number leaves open
// ---------------------------------------------------------------------------

/// What `outside` lists.
pub proof fn lemma_outside(cells: Seq<usize>, fixed: Set<int>, n: nat)
    requires
        layouts::distinct_below(cells, n),
    ensures
        layouts::distinct_below(outside(cells, fixed), n),
        layouts::cell_set(outside(cells, fixed)).disjoint(fixed),
        fixed.union(layouts::cell_set(outside(cells, fixed))) =~= fixed.union(
            layouts::cell_set(cells),
        ),
        layouts::cell_set(outside(cells, fixed)).subset_of(layouts::cell_set(cells)),
    decreases cells.len(),
{
    if cells.len() > 0 {
        let rest = cells.drop_last();
        assert(layouts::distinct_below(rest, n)) by {
            assert forall|i: int| 0 <= i < rest.len() implies (#[trigger] rest[i]) < n by {
                assert(rest[i] == cells[i]);
            }
        }
        lemma_outside(rest, fixed, n);
        let front = outside(rest, fixed);
        let all = outside(cells, fixed);
        let last = cells.last();
        assert(last == cells[cells.len() - 1]);
        lemma_cell_set_push(rest, last);
        assert(rest.push(last) =~= cells);
        assert(!layouts::cell_set(rest).contains(last as int)) by {
            if layouts::cell_set(rest).contains(last as int) {
                let i = choose|i: int| 0 <= i < rest.len() && #[trigger] rest[i] == last as int;
                assert(cells[i] == last);
            }
        }
        if fixed.contains(last as int) {
            assert(fixed.union(layouts::cell_set(all)) =~= fixed.union(layouts::cell_set(cells)));
        } else {
            lemma_cell_set_push(front, last);
            assert(fixed.union(layouts::cell_set(all)) =~= fixed.union(layouts::cell_set(cells)))
                by {
                assert forall|c: int|
                    fixed.union(layouts::cell_set(all)).contains(c) <==> fixed.union(
                        layouts::cell_set(cells),
                    ).contains(c) by {
                    assert(fixed.union(layouts::cell_set(front)).contains(c) <==> fixed.union(
                        layouts::cell_set(rest),
                    ).contains(c));
                }
            }
            assert(layouts::distinct_below(all, n)) by {
                assert forall|i: int, j: int| 0 <= i < j < all.len() implies all[i] != all[j] by {
                    if j == front.len() {
                        assert(layouts::cell_set(front).contains(front[i] as int));
                    }
                }
            }
        }
    } else {
        assert(layouts::cell_set(cells) =~= Set::<int>::empty());
    }
}

/// Appending a cell adds it to the set of cells.
pub proof fn lemma_cell_set_push(cells: Seq<usize>, cell: usize)
    ensures
        layouts::cell_set(cells.push(cell)) =~= layouts::cell_set(cells).insert(cell as int),
{
    let all = cells.push(cell);
    assert forall|c: int| layouts::cell_set(cells).insert(cell as int).contains(
        c,
    ) implies layouts::cell_set(all).contains(c) by {
        if c == cell {
            assert(all[cells.len() as int] == c);
        } else {
            let i = choose|i: int| 0 <= i < cells.len() && #[trigger] cells[i] == c;
            assert(all[i] == c);
        }
    }
    assert forall|c: int| layouts::cell_set(all).contains(c) implies layouts::cell_set(
        cells,
    ).insert(cell as int).contains(c) by {
        let i = choose|i: int| 0 <= i < all.len() && #[trigger] all[i] == c;
        if i < cells.len() {
            assert(cells[i] == c);
        }
    }
}

/// A number's count is what is fixed plus what is still open.
pub proof fn lemma_outside_counts(cells: Seq<usize>, fixed: Set<int>, layout: Set<int>)
    ensures
        layouts::mines_among(cells, layout) == layouts::mines_among(cells, layout.intersect(fixed))
            + layouts::mines_among(outside(cells, fixed), layout),
    decreases cells.len(),
{
    if cells.len() > 0 {
        lemma_outside_counts(cells.drop_last(), fixed, layout);
        let front = outside(cells.drop_last(), fixed);
        if !fixed.contains(cells.last() as int) {
            assert(front.push(cells.last()).drop_last() =~= front);
        }
    }
}

/// The cells covered by one more number.
pub proof fn lemma_covered_step(ds: Seq<Demand>, d: int)
    requires
        0 <= d < ds.len(),
    ensures
        covered(ds, d + 1) =~= covered(ds, d).union(layouts::cell_set(ds[d].cells)),
        covered(ds, d).subset_of(covered(ds, d + 1)),
{
    assert forall|c: int| covered(ds, d + 1).contains(c) implies covered(ds, d).union(
        layouts::cell_set(ds[d].cells),
    ).contains(c) by {
        let i = choose|i: int|
            0 <= i < d + 1 && i < ds.len() && (#[trigger] layouts::cell_set(
                ds[i].cells,
            )).contains(c);
        if i < d {
            assert(layouts::cell_set(ds[i].cells).contains(c));
        }
    }
    assert forall|c: int| covered(ds, d).union(layouts::cell_set(ds[d].cells)).contains(
        c,
    ) implies covered(ds, d + 1).contains(c) by {
        if covered(ds, d).contains(c) {
            let i = choose|i: int|
                0 <= i < d && i < ds.len() && (#[trigger] layouts::cell_set(
                    ds[i].cells,
                )).contains(c);
            assert(layouts::cell_set(ds[i].cells).contains(c));
        } else {
            assert(layouts::cell_set(ds[d].cells).contains(c));
        }
    }
}

/// Cells covered lie below `n` when every number's cells do.
pub proof fn lemma_covered_below(ds: Seq<Demand>, d: int, n: nat)
    requires
        forall|i: int| 0 <= i < ds.len() ==> layouts::distinct_below((#[trigger] ds[i]).cells, n),
    ensures
        covered(ds, d).subset_of(layouts::first_cells(n)),
        covered(ds, d).finite(),
{
    assert forall|c: int| covered(ds, d).contains(c) implies layouts::first_cells(n).contains(
        c,
    ) by {
        let i = choose|i: int|
            0 <= i < d && i < ds.len() && (#[trigger] layouts::cell_set(ds[i].cells)).contains(c);
        let j = choose|j: int| 0 <= j < ds[i].cells.len() && #[trigger] ds[i].cells[j] == c;
        assert(layouts::distinct_below(ds[i].cells, n));
    }
    layouts::lemma_first_cells(n);
    lemma_set_subset_finite(layouts::first_cells(n), covered(ds, d));
}

// ---------------------------------------------------------------------------
// Fixing the next number's cells
// ---------------------------------------------------------------------------

/// Fixing `cells` to one choice selects the members with those positions.
pub proof fn lemma_slice_picked(
    family: Set<Set<int>>,
    fixed: Set<int>,
    mines: Set<int>,
    cells: Seq<usize>,
    n: nat,
    combo: Seq<int>,
)
    requires
        mines.subset_of(fixed),
        layouts::distinct_below(cells, n),
        layouts::cell_set(cells).disjoint(fixed),
        combos::ascending(combo, cells.len() as int),
    ensures
        slice(
            family,
            fixed.union(layouts::cell_set(cells)),
            mines.union(picked(cells, combo)),
        ) =~= slice(family, fixed, mines).filter(
            |g: Set<int>| positions(cells, g) == combo,
        ),
{
    let wide = fixed.union(layouts::cell_set(cells));
    let all = mines.union(picked(cells, combo));
    let left = slice(family, wide, all);
    let right = slice(family, fixed, mines).filter(|g: Set<int>| positions(cells, g) == combo);
    assert forall|c: int| picked(cells, combo).contains(c) implies layouts::cell_set(
        cells,
    ).contains(c) by {
        let i = choose|i: int| 0 <= i < combo.len() && #[trigger] cells[combo[i]] == c;
        assert(0 <= combo[i] < cells.len());
        assert(cells[combo[i]] == c);
    }
    assert forall|g: Set<int>| left.contains(g) implies right.contains(g) by {
        assert(g.intersect(wide) == all);
        assert(g.intersect(fixed) =~= mines) by {
            assert forall|c: int| g.intersect(fixed).contains(c) <==> mines.contains(c) by {
                assert(g.intersect(wide).contains(c) <==> all.contains(c));
            }
        }
        assert forall|j: int| 0 <= j < cells.len() implies (g.contains(#[trigger] cells[j] as int)
            <==> combo.contains(j)) by {
            let c = cells[j] as int;
            assert(layouts::cell_set(cells).contains(c));
            assert(g.intersect(wide).contains(c) <==> all.contains(c));
            if combo.contains(j) {
                let i = choose|i: int| 0 <= i < combo.len() && combo[i] == j;
                assert(cells[combo[i]] == c);
                assert(picked(cells, combo).contains(c));
            }
            if g.contains(c) {
                assert(picked(cells, combo).contains(c));
                let i = choose|i: int| 0 <= i < combo.len() && #[trigger] cells[combo[i]] == c;
                assert(0 <= combo[i] < cells.len());
                assert(combo[i] == j);
                assert(combo.contains(j));
            }
        }
        lemma_positions_unique(cells, g, combo);
    }
    assert forall|g: Set<int>| right.contains(g) implies left.contains(g) by {
        assert(g.intersect(fixed) == mines);
        assert(positions(cells, g) == combo);
        lemma_positions(cells, g);
        assert(g.intersect(wide) =~= all) by {
            assert forall|c: int| g.intersect(wide).contains(c) <==> all.contains(c) by {
                assert(g.intersect(fixed).contains(c) <==> mines.contains(c));
                if g.contains(c) && layouts::cell_set(cells).contains(c) {
                    let j = choose|j: int| 0 <= j < cells.len() && #[trigger] cells[j] == c;
                    assert(combo.contains(j));
                    let i = choose|i: int| 0 <= i < combo.len() && combo[i] == j;
                    assert(cells[combo[i]] == c);
                }
                if picked(cells, combo).contains(c) {
                    let i = choose|i: int| 0 <= i < combo.len() && #[trigger] cells[combo[i]] == c;
                    let j = combo[i];
                    assert(0 <= j < cells.len());
                    assert(combo.contains(j));
                    assert(g.contains(cells[j] as int));
                }
            }
        }
    }
}

/// The facts about a node that the lemmas below share: the cells fixed so far, the
/// cells the next number leaves open, and how many of those must be mines.
pub open spec fn node_facts(
    family: Set<Set<int>>,
    fixed: Set<int>,
    mines: Set<int>,
    cells: Seq<usize>,
    n: nat,
    needed: nat,
) -> bool {
    &&& mines.subset_of(fixed)
    &&& layouts::distinct_below(cells, n)
    &&& layouts::cell_set(cells).disjoint(fixed)
    &&& slice(family, fixed, mines).finite()
    &&& forall|g: Set<int>| #[trigger]
        slice(family, fixed, mines).contains(g) ==> positions(cells, g).len() == needed
}

/// Walking one combination covers exactly the members with those positions.
pub proof fn lemma_early_step(
    family: Set<Set<int>>,
    fixed: Set<int>,
    mines: Set<int>,
    cells: Seq<usize>,
    n: nat,
    combo: Seq<int>,
    at: int,
)
    requires
        node_facts(family, fixed, mines, cells, n, combo.len()),
        combos::ascending(combo, cells.len() as int),
        combos::can_bump(combo, cells.len() as int, at),
    ensures
        early(family, fixed, mines, cells, combos::bumped(combo, at)).len() == early(
            family,
            fixed,
            mines,
            cells,
            combo,
        ).len() + slice(
            family,
            fixed.union(layouts::cell_set(cells)),
            mines.union(picked(cells, combo)),
        ).len(),
{
    let whole = slice(family, fixed, mines);
    let done = early(family, fixed, mines, cells, combo);
    let here = whole.filter(|g: Set<int>| positions(cells, g) == combo);
    let next = early(family, fixed, mines, cells, combos::bumped(combo, at));
    lemma_slice_picked(family, fixed, mines, cells, n, combo);
    combos::lemma_bumped(combo, cells.len() as int, at);
    combos::lemma_strict(combo, combo);
    lemma_set_subset_finite(whole, done);
    lemma_set_subset_finite(whole, here);
    assert(next =~= done.union(here)) by {
        assert forall|g: Set<int>| next.contains(g) <==> done.union(here).contains(g) by {
            lemma_positions(cells, g);
            if whole.contains(g) {
                assert(positions(cells, g).len() == combo.len());
                assert(combos::before(positions(cells, g), combos::bumped(combo, at)) <==> (
                combos::before(positions(cells, g), combo) || positions(cells, g) == combo));
            }
        }
    }
    assert(done.disjoint(here)) by {
        assert forall|g: Set<int>| !(done.contains(g) && here.contains(g)) by {}
    }
    lemma_set_disjoint_lens(done, here);
}

/// With the last combination walked, the whole slice is covered.
pub proof fn lemma_early_last(
    family: Set<Set<int>>,
    fixed: Set<int>,
    mines: Set<int>,
    cells: Seq<usize>,
    n: nat,
    combo: Seq<int>,
)
    requires
        node_facts(family, fixed, mines, cells, n, combo.len()),
        combos::ascending(combo, cells.len() as int),
        combos::at_end(combo, cells.len() as int),
    ensures
        slice(family, fixed, mines).len() == early(family, fixed, mines, cells, combo).len()
            + slice(
            family,
            fixed.union(layouts::cell_set(cells)),
            mines.union(picked(cells, combo)),
        ).len(),
{
    let whole = slice(family, fixed, mines);
    let done = early(family, fixed, mines, cells, combo);
    let here = whole.filter(|g: Set<int>| positions(cells, g) == combo);
    lemma_slice_picked(family, fixed, mines, cells, n, combo);
    combos::lemma_strict(combo, combo);
    lemma_set_subset_finite(whole, done);
    lemma_set_subset_finite(whole, here);
    assert(whole =~= done.union(here)) by {
        assert forall|g: Set<int>| whole.contains(g) <==> done.union(here).contains(g) by {
            lemma_positions(cells, g);
            if whole.contains(g) {
                let p = positions(cells, g);
                assert(p.len() == combo.len());
                combos::lemma_total(p, combo);
                combos::lemma_last(combo, p, cells.len() as int);
            }
        }
    }
    assert(done.disjoint(here)) by {
        assert forall|g: Set<int>| !(done.contains(g) && here.contains(g)) by {}
    }
    lemma_set_disjoint_lens(done, here);
}

/// Before the first combination nothing is covered.
pub proof fn lemma_early_first(
    family: Set<Set<int>>,
    fixed: Set<int>,
    mines: Set<int>,
    cells: Seq<usize>,
    n: nat,
    needed: nat,
)
    requires
        node_facts(family, fixed, mines, cells, n, needed),
    ensures
        early(family, fixed, mines, cells, combos::first_combo(needed)).len() == 0,
{
    let done = early(family, fixed, mines, cells, combos::first_combo(needed));
    assert(done =~= Set::<Set<int>>::empty()) by {
        assert forall|g: Set<int>| !done.contains(g) by {
            if done.contains(g) {
                assert(slice(family, fixed, mines).contains(g));
                lemma_positions(cells, g);
                combos::lemma_first(positions(cells, g), cells.len() as int);
            }
        }
    }
}

/// What is covered, and the combination at hand, never exceed the slice.
pub proof fn lemma_early_bound(
    family: Set<Set<int>>,
    fixed: Set<int>,
    mines: Set<int>,
    cells: Seq<usize>,
    n: nat,
    combo: Seq<int>,
)
    requires
        node_facts(family, fixed, mines, cells, n, combo.len()),
        combos::ascending(combo, cells.len() as int),
    ensures
        early(family, fixed, mines, cells, combo).len() + slice(
            family,
            fixed.union(layouts::cell_set(cells)),
            mines.union(picked(cells, combo)),
        ).len() <= slice(family, fixed, mines).len(),
{
    let whole = slice(family, fixed, mines);
    let done = early(family, fixed, mines, cells, combo);
    let here = whole.filter(|g: Set<int>| positions(cells, g) == combo);
    lemma_slice_picked(family, fixed, mines, cells, n, combo);
    combos::lemma_strict(combo, combo);
    lemma_set_subset_finite(whole, done);
    lemma_set_subset_finite(whole, here);
    assert(done.disjoint(here)) by {
        assert forall|g: Set<int>| !(done.contains(g) && here.contains(g)) by {}
    }
    lemma_set_disjoint_lens(done, here);
    assert(done.union(here).subset_of(whole));
    lemma_len_subset(done.union(here), whole);
}

// ---------------------------------------------------------------------------
// Sums over the depths
// ---------------------------------------------------------------------------

/// Whether every member of a family meets a number.
pub open spec fn family_meets(family: Set<Set<int>>, demand: Demand) -> bool {
    forall|g: Set<int>| #[trigger] family.contains(g) ==> layouts::met(demand, g)
}

/// In a family that meets the next number, the open cells hold what is missing.
pub proof fn lemma_node_facts(
    family: Set<Set<int>>,
    demand: Demand,
    fixed: Set<int>,
    mines: Set<int>,
    n: nat,
    needed: nat,
)
    requires
        family.finite(),
        family_meets(family, demand),
        mines.subset_of(fixed),
        layouts::distinct_below(demand.cells, n),
        demand.mines == layouts::mines_among(demand.cells, mines) + needed,
    ensures
        node_facts(family, fixed, mines, outside(demand.cells, fixed), n, needed),
{
    let cells = outside(demand.cells, fixed);
    lemma_outside(demand.cells, fixed, n);
    lemma_set_subset_finite(family, slice(family, fixed, mines));
    assert forall|g: Set<int>| #[trigger] slice(family, fixed, mines).contains(g) implies positions(
        cells,
        g,
    ).len() == needed by {
        assert(family.contains(g));
        lemma_outside_counts(demand.cells, fixed, g);
        lemma_positions(cells, g);
    }
}

/// Where too many mines are fixed, or too few cells are open, nothing extends.
pub proof fn lemma_pruned(
    family: Set<Set<int>>,
    demand: Demand,
    fixed: Set<int>,
    mines: Set<int>,
)
    requires
        family_meets(family, demand),
        layouts::mines_among(demand.cells, mines) > demand.mines || layouts::mines_among(
            demand.cells,
            mines,
        ) + outside(demand.cells, fixed).len() < demand.mines,
    ensures
        slice(family, fixed, mines) =~= Set::<Set<int>>::empty(),
        slice(family, fixed, mines).len() == 0,
{
    assert forall|g: Set<int>| !slice(family, fixed, mines).contains(g) by {
        if slice(family, fixed, mines).contains(g) {
            assert(family.contains(g));
            lemma_outside_counts(demand.cells, fixed, g);
            layouts::lemma_mines_among_bound(outside(demand.cells, fixed), g);
        }
    }
    assert(slice(family, fixed, mines) =~= Set::<Set<int>>::empty());
}

/// Whether the numbers speak about distinct cells below `n`, and about all of them.
pub open spec fn well_posed(ds: Seq<Demand>, n: nat) -> bool {
    &&& forall|i: int| 0 <= i < ds.len() ==> layouts::distinct_below((#[trigger] ds[i]).cells, n)
    &&& covered(ds, ds.len() as int) == layouts::first_cells(n)
}

/// The partial layouts past a number are finitely many and meet that number.
pub proof fn lemma_partials(ds: Seq<Demand>, n: nat, idx: int, d: int)
    requires
        well_posed(ds, n),
        0 <= idx < d <= ds.len(),
    ensures
        partials(ds, d).finite(),
        family_meets(partials(ds, d), ds[idx]),
{
    lemma_covered_below(ds, d, n);
    layouts::lemma_layouts_finite(covered(ds, d), ds.take(d));
    assert forall|g: Set<int>| #[trigger] partials(ds, d).contains(g) implies layouts::met(
        ds[idx],
        g,
    ) by {
        assert(ds.take(d)[idx] == ds[idx]);
    }
}

/// A node is the one partial layout that extends itself at its own depth.
pub proof fn lemma_self(ds: Seq<Demand>, d: int, mines: Set<int>)
    requires
        mines.subset_of(covered(ds, d)),
        layouts::all_met(ds.take(d), mines),
    ensures
        slice(partials(ds, d), covered(ds, d), mines) =~= Set::<Set<int>>::empty().insert(mines),
        slice(partials(ds, d), covered(ds, d), mines).len() == 1,
{
    let here = slice(partials(ds, d), covered(ds, d), mines);
    assert forall|g: Set<int>| here.contains(g) <==> g == mines by {
        if here.contains(g) {
            assert(g.intersect(covered(ds, d)) =~= g);
        }
        if g == mines {
            assert(g.intersect(covered(ds, d)) =~= g);
        }
    }
    assert(here =~= Set::<Set<int>>::empty().insert(mines));
}

/// The nodes below, when the next number leaves nothing that extends.
pub proof fn lemma_nodes_pruned(
    ds: Seq<Demand>,
    n: nat,
    idx: int,
    d: int,
    fixed: Set<int>,
    mines: Set<int>,
)
    requires
        well_posed(ds, n),
        0 <= idx < d,
        idx < ds.len(),
        layouts::mines_among(ds[idx].cells, mines) > ds[idx].mines || layouts::mines_among(
            ds[idx].cells,
            mines,
        ) + outside(ds[idx].cells, fixed).len() < ds[idx].mines,
    ensures
        nodes_below(ds, d, fixed, mines) == 0,
    decreases ds.len() + 1 - d,
{
    if d <= ds.len() {
        lemma_partials(ds, n, idx, d);
        lemma_pruned(partials(ds, d), ds[idx], fixed, mines);
        lemma_nodes_pruned(ds, n, idx, d + 1, fixed, mines);
    }
}

/// How the nodes below divide between the combinations of the next number.
pub proof fn lemma_nodes_walk(
    ds: Seq<Demand>,
    n: nat,
    idx: int,
    d: int,
    fixed: Set<int>,
    mines: Set<int>,
    combo: Seq<int>,
)
    requires
        well_posed(ds, n),
        0 <= idx < d,
        idx < ds.len(),
        mines.subset_of(fixed),
        ds[idx].mines == layouts::mines_among(ds[idx].cells, mines) + combo.len(),
        combos::ascending(combo, outside(ds[idx].cells, fixed).len() as int),
    ensures
        ({
            let cells = outside(ds[idx].cells, fixed);
            let wide = fixed.union(layouts::cell_set(cells));
            let here = nodes_below(ds, d, wide, mines.union(picked(cells, combo)));
            let done = early_nodes(ds, d, fixed, mines, cells, combo);
            &&& done + here <= nodes_below(ds, d, fixed, mines)
            &&& combo == combos::first_combo(combo.len()) ==> done == 0
            &&& combos::at_end(combo, cells.len() as int) ==> done + here == nodes_below(
                ds,
                d,
                fixed,
                mines,
            )
            &&& forall|at: int| #[trigger]
                combos::can_bump(combo, cells.len() as int, at) ==> early_nodes(
                    ds,
                    d,
                    fixed,
                    mines,
                    cells,
                    combos::bumped(combo, at),
                ) == done + here
        }),
    decreases ds.len() + 1 - d,
{
    if d <= ds.len() {
        let cells = outside(ds[idx].cells, fixed);
        let family = partials(ds, d);
        lemma_partials(ds, n, idx, d);
        lemma_node_facts(family, ds[idx], fixed, mines, n, combo.len());
        lemma_nodes_walk(ds, n, idx, d + 1, fixed, mines, combo);
        lemma_early_bound(family, fixed, mines, cells, n, combo);
        if combo == combos::first_combo(combo.len()) {
            lemma_early_first(family, fixed, mines, cells, n, combo.len());
        }
        if combos::at_end(combo, cells.len() as int) {
            lemma_early_last(family, fixed, mines, cells, n, combo);
        }
        assert forall|at: int| #[trigger]
            combos::can_bump(combo, cells.len() as int, at) implies early_nodes(
            ds,
            d,
            fixed,
            mines,
            cells,
            combos::bumped(combo, at),
        ) == early_nodes(ds, d, fixed, mines, cells, combo) + nodes_below(
            ds,
            d,
            fixed.union(layouts::cell_set(cells)),
            mines.union(picked(cells, combo)),
        ) by {
            lemma_early_step(family, fixed, mines, cells, n, combo, at);
        }
    }
}

/// Fixing the next number's open cells to a choice of the right size meets it, and
/// keeps the earlier numbers met.
pub proof fn lemma_child(
    ds: Seq<Demand>,
    n: nat,
    idx: int,
    mines: Set<int>,
    combo: Seq<int>,
)
    requires
        well_posed(ds, n),
        0 <= idx < ds.len(),
        mines.subset_of(covered(ds, idx)),
        layouts::all_met(ds.take(idx), mines),
        ds[idx].mines == layouts::mines_among(ds[idx].cells, mines) + combo.len(),
        combos::ascending(combo, outside(ds[idx].cells, covered(ds, idx)).len() as int),
    ensures
        ({
            let cells = outside(ds[idx].cells, covered(ds, idx));
            let grown = mines.union(picked(cells, combo));
            &&& covered(ds, idx).union(layouts::cell_set(cells)) =~= covered(ds, idx + 1)
            &&& grown.subset_of(covered(ds, idx + 1))
            &&& layouts::all_met(ds.take(idx + 1), grown)
        }),
{
    let fixed = covered(ds, idx);
    let cells = outside(ds[idx].cells, fixed);
    let grown = mines.union(picked(cells, combo));
    lemma_outside(ds[idx].cells, fixed, n);
    lemma_covered_step(ds, idx);
    assert forall|c: int| picked(cells, combo).contains(c) implies layouts::cell_set(
        cells,
    ).contains(c) by {
        let i = choose|i: int| 0 <= i < combo.len() && #[trigger] cells[combo[i]] == c;
        assert(0 <= combo[i] < cells.len());
        assert(cells[combo[i]] == c);
    }
    assert(grown.intersect(fixed) =~= mines);
    assert forall|i: int| 0 <= i < idx + 1 implies layouts::met(
        #[trigger] ds.take(idx + 1)[i],
        grown,
    ) by {
        if i < idx {
            assert(ds.take(idx)[i] == ds[i]);
            assert(layouts::met(ds.take(idx)[i], mines));
            let list = ds[i].cells;
            assert forall|j: int| 0 <= j < list.len() implies (mines.contains(
                #[trigger] list[j] as int,
            ) <==> grown.contains(list[j] as int)) by {
                assert(layouts::cell_set(list).contains(list[j] as int));
                assert(fixed.contains(list[j] as int));
                assert(grown.intersect(fixed).contains(list[j] as int) <==> mines.contains(
                    list[j] as int,
                ));
            }
            layouts::lemma_mines_among_agree(list, mines, grown);
        } else {
            lemma_outside_counts(ds[idx].cells, fixed, grown);
            assert forall|j: int| 0 <= j < cells.len() implies (grown.contains(
                #[trigger] cells[j] as int,
            ) <==> combo.contains(j)) by {
                let c = cells[j] as int;
                assert(layouts::cell_set(cells).contains(c));
                assert(!fixed.contains(c));
                if combo.contains(j) {
                    let x = choose|x: int| 0 <= x < combo.len() && combo[x] == j;
                    assert(cells[combo[x]] == c);
                }
                if grown.contains(c) {
                    let x = choose|x: int| 0 <= x < combo.len() && #[trigger] cells[combo[x]] == c;
                    assert(0 <= combo[x] < cells.len());
                    assert(combo[x] == j);
                    assert(combo.contains(j));
                }
            }
            lemma_positions_unique(cells, grown, combo);
            lemma_positions(cells, grown);
        }
    }
}

/// A search visits at least one node for each layout: its leaf.
pub proof fn lemma_leaves_are_nodes(ds: Seq<Demand>, n: nat, d: int)
    requires
        well_posed(ds, n),
        0 <= d <= ds.len(),
    ensures
        layouts::layouts_over(layouts::first_cells(n), ds).len() <= nodes_below(
            ds,
            d,
            Set::empty(),
            Set::empty(),
        ),
    decreases ds.len() - d,
{
    if d < ds.len() {
        lemma_leaves_are_nodes(ds, n, d + 1);
    } else {
        let all = layouts::layouts_over(layouts::first_cells(n), ds);
        assert(ds.take(d) =~= ds);
        assert(partials(ds, d) == all);
        assert(slice(all, Set::empty(), Set::empty()) =~= all) by {
            assert forall|g: Set<int>| all.contains(g) implies slice(
                all,
                Set::empty(),
                Set::empty(),
            ).contains(g) by {
                assert(g.intersect(Set::empty()) =~= Set::<int>::empty());
            }
        }
    }
}

} // verus!
