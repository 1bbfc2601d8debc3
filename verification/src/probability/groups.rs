//! The layouts of groups of cells, and how those of the whole board are made of them.

use vstd::prelude::*;
use vstd::set_lib::*;
use crate::counting;
use crate::layouts;
use crate::layouts::Demand;
use crate::probability::components;
use crate::probability::reduce;
use crate::probability::search;
use crate::probability::search::ComponentSolution;

verus! {

/// The layouts of some cells that agree with every number about them. A number is
/// about the cells that hold the first cell it counts.
pub open spec fn group_layouts(dom: Set<int>, ds: Seq<Demand>) -> Set<Set<int>> {
    Set::new(
        |m: Set<int>|
            m.subset_of(dom) && forall|i: int|
                0 <= i < ds.len() && about(#[trigger] ds[i], dom) ==> layouts::met(ds[i], m),
    )
}

/// Whether a number is about some cells.
pub open spec fn about(demand: Demand, dom: Set<int>) -> bool {
    demand.cells.len() > 0 && dom.contains(demand.cells[0] as int)
}

/// Whether every number counts cells on one side only.
pub open spec fn whole(dom: Set<int>, ds: Seq<Demand>) -> bool {
    forall|i: int, k: int|
        0 <= i < ds.len() && 0 <= k < ds[i].cells.len() ==> (dom.contains(
            #[trigger] ds[i].cells[k] as int,
        ) <==> dom.contains(ds[i].cells[0] as int))
}

/// The layouts of two separate groups together are theirs put together.
pub proof fn lemma_groups_join(s: Set<int>, t: Set<int>, ds: Seq<Demand>)
    requires
        s.disjoint(t),
        whole(s, ds),
        whole(t, ds),
    ensures
        group_layouts(s.union(t), ds) =~= counting::join(
            group_layouts(s, ds),
            group_layouts(t, ds),
        ),
        whole(s.union(t), ds),
{
    let f = group_layouts(s, ds);
    let g = group_layouts(t, ds);
    let both = group_layouts(s.union(t), ds);
    assert forall|m: Set<int>| both.contains(m) <==> counting::join(f, g).contains(m) by {
        counting::lemma_join_parts(f, g, s, t, m);
        if m.subset_of(s.union(t)) {
            assert forall|i: int| 0 <= i < ds.len() && about(#[trigger] ds[i], s) implies (
            layouts::met(ds[i], m) <==> layouts::met(ds[i], m.intersect(s))) by {
                let cells = ds[i].cells;
                assert forall|k: int| 0 <= k < cells.len() implies (m.contains(
                    #[trigger] cells[k] as int,
                ) <==> m.intersect(s).contains(cells[k] as int)) by {
                    assert(s.contains(ds[i].cells[k] as int));
                }
                layouts::lemma_mines_among_agree(cells, m, m.intersect(s));
            }
            assert forall|i: int| 0 <= i < ds.len() && about(#[trigger] ds[i], t) implies (
            layouts::met(ds[i], m) <==> layouts::met(ds[i], m.intersect(t))) by {
                let cells = ds[i].cells;
                assert forall|k: int| 0 <= k < cells.len() implies (m.contains(
                    #[trigger] cells[k] as int,
                ) <==> m.intersect(t).contains(cells[k] as int)) by {
                    assert(t.contains(ds[i].cells[k] as int));
                }
                layouts::lemma_mines_among_agree(cells, m, m.intersect(t));
            }
            if both.contains(m) {
                assert forall|i: int| 0 <= i < ds.len() && about(
                    #[trigger] ds[i],
                    s,
                ) implies layouts::met(ds[i], m.intersect(s)) by {
                    assert(about(ds[i], s.union(t)));
                }
                assert forall|i: int| 0 <= i < ds.len() && about(
                    #[trigger] ds[i],
                    t,
                ) implies layouts::met(ds[i], m.intersect(t)) by {
                    assert(about(ds[i], s.union(t)));
                }
            }
            if f.contains(m.intersect(s)) && g.contains(m.intersect(t)) {
                assert forall|i: int| 0 <= i < ds.len() && about(
                    #[trigger] ds[i],
                    s.union(t),
                ) implies layouts::met(ds[i], m) by {
                    if about(ds[i], s) {
                        assert(layouts::met(ds[i], m.intersect(s)));
                    } else {
                        assert(about(ds[i], t));
                        assert(layouts::met(ds[i], m.intersect(t)));
                    }
                }
            }
        }
    }
    assert forall|i: int, k: int| 0 <= i < ds.len() && 0 <= k < ds[i].cells.len() implies (s.union(
        t,
    ).contains(#[trigger] ds[i].cells[k] as int) <==> s.union(t).contains(
        ds[i].cells[0] as int,
    )) by {
        assert(s.contains(ds[i].cells[k] as int) <==> s.contains(ds[i].cells[0] as int));
        assert(t.contains(ds[i].cells[k] as int) <==> t.contains(ds[i].cells[0] as int));
    }
}

/// Every number about a group counts cells of that group only.
pub proof fn lemma_group_whole(cells: Seq<usize>, ds: Seq<Demand>)
    requires
        components::is_group(cells, ds),
    ensures
        whole(layouts::cell_set(cells), ds),
{
    let dom = layouts::cell_set(cells);
    assert forall|i: int, k: int| 0 <= i < ds.len() && 0 <= k < ds[i].cells.len() implies (
    dom.contains(#[trigger] ds[i].cells[k] as int) <==> dom.contains(ds[i].cells[0] as int)) by {
        let a = ds[i].cells[k];
        let b = ds[i].cells[0];
        assert(layouts::cell_set(ds[i].cells).contains(a as int));
        assert(layouts::cell_set(ds[i].cells).contains(b as int));
        assert(components::spoken_of(ds).contains(a as int));
        assert(components::spoken_of(ds).contains(b as int));
        assert(components::counted_together(ds, i, a as int, b as int));
        assert(components::counted_together(ds, i, b as int, a as int));
        components::lemma_connected_link(ds, i, a as int, b as int);
        components::lemma_connected_link(ds, i, b as int, a as int);
        lemma_contains(cells, a);
        lemma_contains(cells, b);
        let first = cells[0] as int;
        if components::connected(ds, first, a as int) {
            components::lemma_connected_join(ds, first, a as int, b as int);
        }
        if components::connected(ds, first, b as int) {
            components::lemma_connected_join(ds, first, b as int, a as int);
        }
    }
}

/// A list and the set of its entries hold the same.
pub proof fn lemma_contains(cells: Seq<usize>, c: usize)
    ensures
        layouts::cell_set(cells).contains(c as int) <==> cells.contains(c),
{
    if cells.contains(c) {
        let i = choose|i: int| 0 <= i < cells.len() && cells[i] == c;
        assert(cells[i] == c as int);
    }
    if layouts::cell_set(cells).contains(c as int) {
        let i = choose|i: int| 0 <= i < cells.len() && #[trigger] cells[i] == c as int;
        assert(cells[i] == c);
    }
}

// ---------------------------------------------------------------------------
// Positions in a group and cells of the board
// ---------------------------------------------------------------------------

/// The cells at some positions.
pub open spec fn placed(cells: Seq<usize>, at: Set<int>) -> Set<int> {
    Set::new(
        |c: int| exists|i: int| 0 <= i < cells.len() && #[trigger] cells[i] == c && at.contains(i),
    )
}

/// The positions of some cells.
pub open spec fn places(cells: Seq<usize>, m: Set<int>) -> Set<int> {
    Set::new(|i: int| 0 <= i < cells.len() && m.contains(cells[i] as int))
}

/// Positions and cells correspond one to one.
proof fn lemma_placed(cells: Seq<usize>, n: nat, at: Set<int>)
    requires
        layouts::distinct_below(cells, n),
        at.subset_of(layouts::first_cells(cells.len())),
    ensures
        places(cells, placed(cells, at)) =~= at,
        placed(cells, at).subset_of(layouts::cell_set(cells)),
        placed(cells, at).len() == at.len(),
        forall|i: int|
            0 <= i < cells.len() ==> (placed(cells, at).contains(#[trigger] cells[i] as int)
                <==> at.contains(i)),
{
    let m = placed(cells, at);
    assert forall|i: int| 0 <= i < cells.len() implies (m.contains(#[trigger] cells[i] as int)
        <==> at.contains(i)) by {
        if m.contains(cells[i] as int) {
            let j = choose|j: int|
                0 <= j < cells.len() && #[trigger] cells[j] == cells[i] as int && at.contains(j);
            assert(i == j);
        }
    }
    assert forall|i: int| at.contains(i) implies places(cells, m).contains(i) by {
        assert(layouts::first_cells(cells.len()).contains(i));
    }
    let f = |i: int| cells[i] as int;
    layouts::lemma_first_cells(cells.len());
    lemma_set_subset_finite(layouts::first_cells(cells.len()), at);
    assert(at.map(f) =~= m) by {
        assert forall|c: int| m.contains(c) implies at.map(f).contains(c) by {
            let i = choose|i: int|
                0 <= i < cells.len() && #[trigger] cells[i] == c && at.contains(i);
            assert(f(i) == c);
        }
        assert forall|c: int| at.map(f).contains(c) implies m.contains(c) by {
            let i = choose|i: int| at.contains(i) && f(i) == c;
            assert(layouts::first_cells(cells.len()).contains(i));
            assert(cells[i] == c);
        }
    }
    assert(vstd::relations::injective_on(f, at)) by {
        assert forall|a: int, b: int|
            at.contains(a) && at.contains(b) && #[trigger] f(a) == #[trigger] f(b) implies a == b by {
            assert(layouts::first_cells(cells.len()).contains(a));
            assert(layouts::first_cells(cells.len()).contains(b));
            if a < b {
                assert(cells[a] != cells[b]);
            } else if b < a {
                assert(cells[b] != cells[a]);
            }
        }
    }
    lemma_map_size(at, m, f);
}

/// Cells of a list are recovered from their positions.
proof fn lemma_places(cells: Seq<usize>, m: Set<int>)
    requires
        m.subset_of(layouts::cell_set(cells)),
    ensures
        placed(cells, places(cells, m)) =~= m,
        places(cells, m).subset_of(layouts::first_cells(cells.len())),
{
    assert forall|c: int| m.contains(c) implies placed(cells, places(cells, m)).contains(c) by {
        assert(layouts::cell_set(cells).contains(c));
        let i = choose|i: int| 0 <= i < cells.len() && #[trigger] cells[i] == c;
        assert(places(cells, m).contains(i));
    }
}

/// A number, rebased, is met by positions just when it is met by the cells there.
proof fn lemma_rebased_met(demand: Demand, cells: Seq<usize>, n: nat, at: Set<int>)
    requires
        layouts::distinct_below(cells, n),
        cells.len() <= usize::MAX,
        at.subset_of(layouts::first_cells(cells.len())),
        forall|k: int| 0 <= k < demand.cells.len() ==> cells.contains(#[trigger] demand.cells[k]),
    ensures
        layouts::met(components::rebased_one(demand, cells), at) <==> layouts::met(
            demand,
            placed(cells, at),
        ),
{
    let local = components::rebased_one(demand, cells);
    lemma_placed(cells, n, at);
    assert forall|k: int| 0 <= k < local.cells.len() implies (at.contains(
        #[trigger] local.cells[k] as int,
    ) <==> placed(cells, at).contains(demand.cells[k] as int)) by {
        let c = demand.cells[k];
        assert(cells.contains(c));
        let p = components::place_in(cells, c);
        assert(0 <= p < cells.len() && cells[p] == c);
        assert(local.cells[k] == p);
    }
    reduce::lemma_count_map(local.cells, demand.cells, at, placed(cells, at));
}

/// All rebased numbers are met just when every number about the group is.
proof fn lemma_rebased_all_met(
    ds: Seq<Demand>,
    cells: Seq<usize>,
    n: nat,
    at: Set<int>,
    upto: int,
)
    requires
        layouts::distinct_below(cells, n),
        cells.len() <= usize::MAX,
        at.subset_of(layouts::first_cells(cells.len())),
        whole(layouts::cell_set(cells), ds),
        0 <= upto <= ds.len(),
    ensures
        layouts::all_met(components::rebased(ds, cells, upto), at) <==> forall|i: int|
            0 <= i < upto && about(#[trigger] ds[i], layouts::cell_set(cells)) ==> layouts::met(
                ds[i],
                placed(cells, at),
            ),
    decreases upto,
{
    let dom = layouts::cell_set(cells);
    if upto > 0 {
        lemma_rebased_all_met(ds, cells, n, at, upto - 1);
        let d = ds[upto - 1];
        let front = components::rebased(ds, cells, upto - 1);
        let all = components::rebased(ds, cells, upto);
        if d.cells.len() > 0 {
            lemma_contains(cells, d.cells[0]);
        }
        if components::speaks_of(d, cells) {
            assert forall|k: int| 0 <= k < d.cells.len() implies cells.contains(
                #[trigger] d.cells[k],
            ) by {
                assert(dom.contains(ds[upto - 1].cells[k] as int));
                lemma_contains(cells, d.cells[k]);
            }
            lemma_rebased_met(d, cells, n, at);
            assert(all == front.push(components::rebased_one(d, cells)));
            if layouts::all_met(all, at) {
                assert forall|i: int| 0 <= i < front.len() implies layouts::met(
                    #[trigger] front[i],
                    at,
                ) by {
                    assert(all[i] == front[i]);
                }
                assert(layouts::met(all[front.len() as int], at));
            }
        }
    }
}

/// The layouts of a group, by position, correspond to those by cell.
proof fn lemma_local_global(ds: Seq<Demand>, cells: Seq<usize>, n: nat, at: Set<int>)
    requires
        layouts::distinct_below(cells, n),
        cells.len() <= usize::MAX,
        whole(layouts::cell_set(cells), ds),
        at.subset_of(layouts::first_cells(cells.len())),
    ensures
        search::all_layouts(
            cells.len(),
            components::rebased(ds, cells, ds.len() as int),
        ).contains(at) <==> group_layouts(layouts::cell_set(cells), ds).contains(
            placed(cells, at),
        ),
{
    lemma_rebased_all_met(ds, cells, n, at, ds.len() as int);
    lemma_placed(cells, n, at);
}

/// Two families that positions and cells carry into each other are equally large.
proof fn lemma_same_size(x: Set<Set<int>>, y: Set<Set<int>>, cells: Seq<usize>)
    requires
        x.finite(),
        forall|at: Set<int>| #[trigger]
            x.contains(at) ==> y.contains(placed(cells, at)) && places(cells, placed(cells, at))
                == at,
        forall|m: Set<int>| #[trigger]
            y.contains(m) ==> x.contains(places(cells, m)) && placed(cells, places(cells, m)) == m,
    ensures
        x.len() == y.len(),
        y.finite(),
{
    let f = |at: Set<int>| placed(cells, at);
    assert(x.map(f) =~= y) by {
        assert forall|m: Set<int>| y.contains(m) implies x.map(f).contains(m) by {
            let at = places(cells, m);
            assert(x.contains(at) && f(at) == m);
        }
    }
    assert(vstd::relations::injective_on(f, x)) by {
        assert forall|a: Set<int>, b: Set<int>|
            x.contains(a) && x.contains(b) && #[trigger] f(a) == #[trigger] f(b) implies a == b by {
            assert(places(cells, f(a)) == a);
            assert(places(cells, f(b)) == b);
        }
    }
    lemma_map_size(x, y, f);
}

/// A solved group: its counts are those of the group's layouts on the board.
pub proof fn lemma_solution_counts(
    ds: Seq<Demand>,
    cells: Seq<usize>,
    n: nat,
    solution: &ComponentSolution,
)
    requires
        layouts::distinct_below(cells, n),
        cells.len() <= usize::MAX,
        whole(layouts::cell_set(cells), ds),
        search::solves(
            *solution,
            cells.len(),
            components::rebased(ds, cells, ds.len() as int),
        ),
    ensures
        counting::counts(widened(solution.ways@), group_layouts(layouts::cell_set(cells), ds)),
        forall|l: int|
            0 <= l < cells.len() ==> counting::counts(
                widened(#[trigger] solution.cell_ways@[l]@),
                layouts::holding(
                    group_layouts(layouts::cell_set(cells), ds),
                    cells[l] as int,
                ),
            ),
{
    let len = cells.len();
    let local = search::all_layouts(len, components::rebased(ds, cells, ds.len() as int));
    let dom = layouts::cell_set(cells);
    let global = group_layouts(dom, ds);
    layouts::lemma_first_cells(len);
    layouts::lemma_layouts_finite(
        layouts::first_cells(len),
        components::rebased(ds, cells, ds.len() as int),
    );
    layouts::lemma_cell_set_len(cells, n);
    assert forall|at: Set<int>| #[trigger] local.contains(at) implies global.contains(
        placed(cells, at),
    ) && places(cells, placed(cells, at)) == at && placed(cells, at).len() == at.len() && (forall|
        i: int,
    |
        0 <= i < len ==> (placed(cells, at).contains(#[trigger] cells[i] as int) <==> at.contains(
            i,
        ))) by {
        lemma_placed(cells, n, at);
        lemma_local_global(ds, cells, n, at);
    }
    assert forall|m: Set<int>| #[trigger] global.contains(m) implies local.contains(
        places(cells, m),
    ) && placed(cells, places(cells, m)) == m by {
        lemma_places(cells, m);
        lemma_local_global(ds, cells, n, places(cells, m));
    }
    assert forall|k: nat| #[trigger] counting::coef(widened(solution.ways@), k as int)
        == layouts::with_mines(global, k).len() by {
        let x = layouts::with_mines(local, k);
        let y = layouts::with_mines(global, k);
        lemma_set_subset_finite(local, x);
        assert forall|at: Set<int>| #[trigger] x.contains(at) implies y.contains(
            placed(cells, at),
        ) && places(cells, placed(cells, at)) == at by {
            assert(local.contains(at));
        }
        assert forall|m: Set<int>| #[trigger] y.contains(m) implies x.contains(places(cells, m))
            && placed(cells, places(cells, m)) == m by {
            assert(global.contains(m));
            assert(local.contains(places(cells, m)));
        }
        lemma_same_size(x, y, cells);
        if k > len {
            assert(x =~= Set::<Set<int>>::empty()) by {
                assert forall|at: Set<int>| !x.contains(at) by {
                    if x.contains(at) {
                        assert(local.contains(at));
                    }
                }
            }
        } else {
            assert(solution.ways@[k as int] == layouts::with_mines(local, k).len());
        }
    }
    assert forall|l: int| 0 <= l < len implies counting::counts(
        widened(#[trigger] solution.cell_ways@[l]@),
        layouts::holding(global, cells[l] as int),
    ) by {
        let c = cells[l] as int;
        let part = layouts::holding(global, c);
        assert(solution.cell_ways@[l]@.len() == len + 1);
        assert forall|k: nat| #[trigger] counting::coef(
            widened(solution.cell_ways@[l]@),
            k as int,
        ) == layouts::with_mines(part, k).len() by {
            let x = layouts::holding(layouts::with_mines(local, k), l);
            let y = layouts::with_mines(part, k);
            lemma_set_subset_finite(local, x);
            assert forall|at: Set<int>| #[trigger] x.contains(at) implies y.contains(
                placed(cells, at),
            ) && places(cells, placed(cells, at)) == at by {
                assert(local.contains(at));
                assert(placed(cells, at).contains(cells[l] as int));
            }
            assert forall|m: Set<int>| #[trigger] y.contains(m) implies x.contains(
                places(cells, m),
            ) && placed(cells, places(cells, m)) == m by {
                assert(global.contains(m));
                assert(local.contains(places(cells, m)));
                assert(places(cells, m).contains(l));
            }
            lemma_same_size(x, y, cells);
            if k > len {
                assert(x =~= Set::<Set<int>>::empty()) by {
                    assert forall|at: Set<int>| !x.contains(at) by {
                        if x.contains(at) {
                            assert(local.contains(at));
                        }
                    }
                }
            } else {
                assert(solution.cell_ways@[l]@[k as int] == layouts::holding(
                    layouts::with_mines(local, k),
                    l,
                ).len());
            }
        }
    }
}

/// Machine counts as naturals.
pub open spec fn widened(counts: Seq<u64>) -> Seq<nat> {
    Seq::new(counts.len(), |i: int| counts[i] as nat)
}

} // verus!
