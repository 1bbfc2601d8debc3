//! Mine layouts, as mathematics.
//!
//! A layout is the set of cells that hold a mine. Everything the estimators
//! claim is a statement about how many layouts there are, so this module says
//! what a layout is, when it agrees with the visible numbers, and how the
//! numbers of layouts of two unrelated groups of cells combine.

use vstd::prelude::*;
use vstd::set_lib::*;

verus! {

/// What one visible number says: of `cells`, exactly `mines` hold a mine.
pub struct Demand {
    pub cells: Seq<usize>,
    pub mines: nat,
}

/// The demands that a list of executable constraints states.
pub open spec fn demands(constraints: Seq<(Vec<usize>, usize)>) -> Seq<Demand> {
    Seq::new(
        constraints.len(),
        |i: int| Demand { cells: constraints[i].0@, mines: constraints[i].1 as nat },
    )
}

/// How many entries of `cells` are mines of `layout`.
pub open spec fn mines_among(cells: Seq<usize>, layout: Set<int>) -> nat
    decreases cells.len(),
{
    if cells.len() == 0 {
        0
    } else {
        mines_among(cells.drop_last(), layout) + if layout.contains(cells.last() as int) {
            1nat
        } else {
            0nat
        }
    }
}

/// Whether `layout` agrees with one number.
pub open spec fn met(demand: Demand, layout: Set<int>) -> bool {
    mines_among(demand.cells, layout) == demand.mines
}

/// Whether `layout` agrees with every number.
pub open spec fn all_met(ds: Seq<Demand>, layout: Set<int>) -> bool {
    forall|i: int| 0 <= i < ds.len() ==> met(#[trigger] ds[i], layout)
}

/// The cells `0..n`.
pub open spec fn first_cells(n: nat) -> Set<int> {
    Set::new(|i: int| 0 <= i < n)
}

/// Every layout of the cells `dom` that agrees with every number in `ds`.
pub open spec fn layouts_over(dom: Set<int>, ds: Seq<Demand>) -> Set<Set<int>> {
    Set::new(|m: Set<int>| m.subset_of(dom) && all_met(ds, m))
}

/// The layouts of a family that use exactly `k` mines.
pub open spec fn with_mines(family: Set<Set<int>>, k: nat) -> Set<Set<int>> {
    family.filter(|m: Set<int>| m.len() == k)
}

/// The layouts of a family that put a mine on `cell`.
pub open spec fn holding(family: Set<Set<int>>, cell: int) -> Set<Set<int>> {
    family.filter(|m: Set<int>| m.contains(cell))
}

/// Whether the entries of `cells` are distinct members of `0..n`.
pub open spec fn distinct_below(cells: Seq<usize>, n: nat) -> bool {
    &&& forall|i: int| 0 <= i < cells.len() ==> (#[trigger] cells[i]) < n
    &&& forall|i: int, j: int| 0 <= i < j < cells.len() ==> cells[i] != cells[j]
}

/// The entries of a list of cells, as a set.
pub open spec fn cell_set(cells: Seq<usize>) -> Set<int> {
    Set::new(|c: int| exists|i: int| 0 <= i < cells.len() && #[trigger] cells[i] == c)
}

/// Every layout of `dom` at all.
pub open spec fn subsets(dom: Set<int>) -> Set<Set<int>> {
    Set::new(|m: Set<int>| m.subset_of(dom))
}

// ---------------------------------------------------------------------------
// Counting along a list
// ---------------------------------------------------------------------------

/// The count never exceeds the length of the list.
pub proof fn lemma_mines_among_bound(cells: Seq<usize>, layout: Set<int>)
    ensures
        mines_among(cells, layout) <= cells.len(),
    decreases cells.len(),
{
    if cells.len() > 0 {
        lemma_mines_among_bound(cells.drop_last(), layout);
    }
}

/// Two layouts that agree on every listed cell give the same count.
pub proof fn lemma_mines_among_agree(cells: Seq<usize>, a: Set<int>, b: Set<int>)
    requires
        forall|i: int|
            0 <= i < cells.len() ==> (a.contains(#[trigger] cells[i] as int) <==> b.contains(
                cells[i] as int,
            )),
    ensures
        mines_among(cells, a) == mines_among(cells, b),
    decreases cells.len(),
{
    if cells.len() > 0 {
        let rest = cells.drop_last();
        assert forall|i: int| 0 <= i < rest.len() implies (a.contains(#[trigger] rest[i] as int)
            <==> b.contains(rest[i] as int)) by {
            assert(rest[i] == cells[i]);
        }
        lemma_mines_among_agree(rest, a, b);
        assert(cells.last() == cells[cells.len() - 1]);
    }
}

/// A larger layout counts at least as many.
pub proof fn lemma_mines_among_monotone(cells: Seq<usize>, a: Set<int>, b: Set<int>)
    requires
        a.subset_of(b),
    ensures
        mines_among(cells, a) <= mines_among(cells, b),
    decreases cells.len(),
{
    if cells.len() > 0 {
        lemma_mines_among_monotone(cells.drop_last(), a, b);
    }
}

/// A larger layout that gains a listed cell counts strictly more.
pub proof fn lemma_mines_among_strict(cells: Seq<usize>, a: Set<int>, b: Set<int>, at: int)
    requires
        a.subset_of(b),
        0 <= at < cells.len(),
        b.contains(cells[at] as int),
        !a.contains(cells[at] as int),
    ensures
        mines_among(cells, a) < mines_among(cells, b),
    decreases cells.len(),
{
    if at == cells.len() - 1 {
        lemma_mines_among_monotone(cells.drop_last(), a, b);
    } else {
        assert(cells.drop_last()[at] == cells[at]);
        lemma_mines_among_strict(cells.drop_last(), a, b, at);
    }
}

/// With no listed cell a mine, the count is zero, and conversely.
pub proof fn lemma_mines_among_none(cells: Seq<usize>, layout: Set<int>)
    ensures
        mines_among(cells, layout) == 0 <==> forall|i: int|
            0 <= i < cells.len() ==> !layout.contains(#[trigger] cells[i] as int),
    decreases cells.len(),
{
    if cells.len() > 0 {
        let rest = cells.drop_last();
        lemma_mines_among_none(rest, layout);
        assert(cells.last() == cells[cells.len() - 1]);
        assert(forall|i: int| 0 <= i < rest.len() ==> rest[i] == #[trigger] cells[i]);
        if forall|i: int| 0 <= i < cells.len() ==> !layout.contains(#[trigger] cells[i] as int) {
            assert forall|i: int| 0 <= i < rest.len() implies !layout.contains(
                #[trigger] rest[i] as int,
            ) by {
                assert(rest[i] == cells[i]);
            }
        }
        if mines_among(cells, layout) == 0 {
            assert forall|i: int| 0 <= i < cells.len() implies !layout.contains(
                #[trigger] cells[i] as int,
            ) by {
                if i < rest.len() {
                    assert(rest[i] == cells[i]);
                }
            }
        }
    }
}

/// Distinct cells are as many as their set has members.
pub proof fn lemma_cell_set_len(cells: Seq<usize>, n: nat)
    requires
        distinct_below(cells, n),
    ensures
        cell_set(cells).finite(),
        cell_set(cells).len() == cells.len(),
        cell_set(cells).subset_of(first_cells(n)),
    decreases cells.len(),
{
    if cells.len() == 0 {
        assert(cell_set(cells) =~= Set::<int>::empty());
    } else {
        let rest = cells.drop_last();
        assert(distinct_below(rest, n)) by {
            assert forall|i: int| 0 <= i < rest.len() implies (#[trigger] rest[i]) < n by {
                assert(rest[i] == cells[i]);
            }
        }
        lemma_cell_set_len(rest, n);
        let last = cells[cells.len() - 1] as int;
        assert(!cell_set(rest).contains(last)) by {
            if cell_set(rest).contains(last) {
                let i = choose|i: int| 0 <= i < rest.len() && #[trigger] rest[i] == last;
                assert(cells[i] == cells[cells.len() - 1]);
            }
        }
        assert(cell_set(cells) =~= cell_set(rest).insert(last)) by {
            assert forall|c: int| cell_set(rest).insert(last).contains(c) implies cell_set(
                cells,
            ).contains(c) by {
                if c != last {
                    let i = choose|i: int| 0 <= i < rest.len() && #[trigger] rest[i] == c;
                    assert(cells[i] == c);
                }
            }
            assert forall|c: int| cell_set(cells).contains(c) implies cell_set(rest).insert(
                last,
            ).contains(c) by {
                let i = choose|i: int| 0 <= i < cells.len() && #[trigger] cells[i] == c;
                if i < rest.len() {
                    assert(rest[i] == c);
                }
            }
        }
    }
}

// ---------------------------------------------------------------------------
// Families of layouts
// ---------------------------------------------------------------------------

/// The cells `0..n` are finitely many, namely `n`.
pub proof fn lemma_first_cells(n: nat)
    ensures
        first_cells(n).finite(),
        first_cells(n).len() == n,
    decreases n,
{
    if n == 0 {
        assert(first_cells(0) =~= Set::<int>::empty());
    } else {
        lemma_first_cells((n - 1) as nat);
        assert(first_cells(n) =~= first_cells((n - 1) as nat).insert(n - 1));
    }
}

/// A finite set has finitely many subsets, all of them finite.
pub proof fn lemma_subsets_finite(dom: Set<int>)
    requires
        dom.finite(),
    ensures
        subsets(dom).finite(),
        forall|m: Set<int>| #[trigger] subsets(dom).contains(m) ==> m.finite(),
    decreases dom.len(),
{
    if dom.len() == 0 {
        assert(dom =~= Set::<int>::empty());
        assert(subsets(dom) =~= Set::<Set<int>>::empty().insert(Set::<int>::empty())) by {
            assert forall|m: Set<int>| #[trigger] subsets(dom).contains(m) implies m
                == Set::<int>::empty() by {
                assert(m =~= Set::<int>::empty());
            }
        }
    } else {
        let x = dom.choose();
        let rest = dom.remove(x);
        lemma_subsets_finite(rest);
        let grow = |m: Set<int>| m.insert(x);
        let grown = subsets(rest).map(grow);
        subsets(rest).lemma_map_finite(grow);
        assert(subsets(dom) =~= subsets(rest).union(grown)) by {
            assert forall|m: Set<int>| #[trigger] subsets(dom).contains(m) implies subsets(
                rest,
            ).union(grown).contains(m) by {
                if m.contains(x) {
                    let base = m.remove(x);
                    assert(base.subset_of(rest));
                    assert(subsets(rest).contains(base));
                    assert(m =~= grow(base));
                    assert(grown.contains(m));
                } else {
                    assert(m.subset_of(rest));
                }
            }
            assert forall|m: Set<int>| #[trigger]
                subsets(rest).union(grown).contains(m) implies subsets(dom).contains(m) by {
                if grown.contains(m) {
                    let base = choose|b: Set<int>| subsets(rest).contains(b) && grow(b) == m;
                    assert(m == base.insert(x));
                    assert(m.subset_of(dom));
                } else {
                    assert(m.subset_of(dom));
                }
            }
        }
        assert forall|m: Set<int>| #[trigger] subsets(dom).contains(m) implies m.finite() by {
            lemma_set_subset_finite(dom, m);
        }
    }
}

/// A family of layouts of a finite set of cells is finite, and so is each layout.
pub proof fn lemma_family_finite(family: Set<Set<int>>, dom: Set<int>)
    requires
        dom.finite(),
        family.subset_of(subsets(dom)),
    ensures
        family.finite(),
        forall|m: Set<int>| #[trigger] family.contains(m) ==> m.finite() && m.len() <= dom.len(),
{
    lemma_subsets_finite(dom);
    lemma_set_subset_finite(subsets(dom), family);
    assert forall|m: Set<int>| #[trigger] family.contains(m) implies m.finite() && m.len()
        <= dom.len() by {
        assert(subsets(dom).contains(m));
        lemma_len_subset(m, dom);
    }
}

/// The layouts that agree with every number are finitely many.
pub proof fn lemma_layouts_finite(dom: Set<int>, ds: Seq<Demand>)
    requires
        dom.finite(),
    ensures
        layouts_over(dom, ds).finite(),
        layouts_over(dom, ds).subset_of(subsets(dom)),
        forall|m: Set<int>| #[trigger]
            layouts_over(dom, ds).contains(m) ==> m.finite() && m.len() <= dom.len(),
{
    assert(layouts_over(dom, ds).subset_of(subsets(dom)));
    lemma_family_finite(layouts_over(dom, ds), dom);
}

} // verus!
