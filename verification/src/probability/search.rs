//! Depth-first search over the layouts of one group of cells.
//!
//! It answers a question about that group alone: for each `k`, how many of its
//! layouts use exactly `k` mines, and in how many of those a given cell is one.
//! The rest of the board never enters, which is what lets groups be solved
//! separately and combined afterwards.

use vstd::prelude::*;
use vstd::set_lib::*;
use crate::combos;
use crate::layouts;
use crate::layouts::Demand;
use crate::probability::slices;

verus! {

/// The answer for one group of cells.
pub struct ComponentSolution {
    /// `ways[k]`: layouts of the group that use exactly `k` mines.
    pub ways: Vec<u64>,
    /// `cell_ways[c][k]`: of those, the ones where cell `c` is a mine.
    pub cell_ways: Vec<Vec<u64>>,
}

/// The layouts of the cells `0..n` that agree with every number.
pub open spec fn all_layouts(n: nat, ds: Seq<Demand>) -> Set<Set<int>> {
    layouts::layouts_over(layouts::first_cells(n), ds)
}

/// Whether a solution counts the layouts of the cells `0..n` correctly.
pub open spec fn solves(solution: ComponentSolution, n: nat, ds: Seq<Demand>) -> bool {
    let all = all_layouts(n, ds);
    &&& solution.ways@.len() == n + 1
    &&& solution.cell_ways@.len() == n
    &&& forall|k: int|
        0 <= k <= n ==> #[trigger] solution.ways@[k] == layouts::with_mines(all, k as nat).len()
    &&& forall|c: int| 0 <= c < n ==> (#[trigger] solution.cell_ways@[c])@.len() == n + 1
    &&& forall|c: int, k: int|
        0 <= c < n && 0 <= k <= n ==> #[trigger] solution.cell_ways@[c]@[k] == layouts::holding(
            layouts::with_mines(all, k as nat),
            c,
        ).len()
}

/// What a finished search hands back.
pub struct Searched {
    pub solution: ComponentSolution,
    /// Layouts found.
    pub layouts: u64,
    /// Search nodes visited.
    pub nodes: usize,
}

/// The state of a search.
struct Dfs<'a> {
    /// The numbers, in the order in which the search fixes their cells.
    constraints: &'a Vec<(Vec<usize>, usize)>,
    /// `None` while undecided, `Some(true)` for a mine, `Some(false)` for safe.
    assignment: Vec<Option<bool>>,
    /// `ways[k]`: layouts found so far that use exactly `k` mines.
    ways: Vec<u64>,
    /// `cell_ways[c][k]`: of those, the ones where cell `c` is a mine.
    cell_ways: Vec<Vec<u64>>,
    /// The cells assigned as mines, newest last, so that a leaf credits exactly
    /// those instead of scanning every cell.
    mine_cells: Vec<usize>,
    /// Layouts found so far.
    valid_count: u64,
    /// Nodes visited so far, against `max_nodes`.
    nodes: usize,
    /// The budget.
    max_nodes: usize,
    /// Set when the budget ran out. The partial numbers are then worthless: a
    /// half-finished walk has covered only a prefix of the layouts, so a cell can
    /// read "never a mine" only because its subtree was never visited.
    exhausted: bool,
}

impl<'a> Dfs<'a> {
    spec fn n(self) -> nat {
        self.assignment@.len()
    }

    spec fn ds(self) -> Seq<Demand> {
        layouts::demands(self.constraints@)
    }

    spec fn all(self) -> Set<Set<int>> {
        all_layouts(self.n(), self.ds())
    }

    /// The cells decided so far.
    spec fn fixed(self) -> Set<int> {
        Set::new(|c: int| 0 <= c < self.assignment@.len() && self.assignment@[c] is Some)
    }

    /// The cells decided to be mines.
    spec fn mines(self) -> Set<int> {
        Set::new(|c: int| 0 <= c < self.assignment@.len() && self.assignment@[c] == Some(true))
    }

    /// The invariant of every operation.
    spec fn wf(self) -> bool {
        &&& slices::well_posed(self.ds(), self.n())
        &&& self.ways@.len() == self.n() + 1
        &&& self.cell_ways@.len() == self.n()
        &&& forall|c: int| 0 <= c < self.n() ==> (#[trigger] self.cell_ways@[c])@.len() == self.n() + 1
        &&& layouts::distinct_below(self.mine_cells@, self.n())
        &&& layouts::cell_set(self.mine_cells@) =~= self.mines()
        &&& self.nodes <= self.max_nodes
    }

    /// No counter exceeds `bound`.
    spec fn counters_within(self, bound: int) -> bool {
        &&& self.valid_count <= bound
        &&& forall|k: int| 0 <= k < self.ways@.len() ==> #[trigger] self.ways@[k] <= bound
        &&& forall|c: int, k: int|
            0 <= c < self.cell_ways@.len() && 0 <= k < self.cell_ways@[c]@.len()
                ==> #[trigger] self.cell_ways@[c]@[k] <= bound
    }

    /// Ready to fix the cells of number `idx`: those of the earlier ones are decided
    /// and meet them.
    spec fn ready(self, idx: int) -> bool {
        &&& self.wf()
        &&& self.counters_within(self.nodes as int)
        &&& 0 <= idx <= self.ds().len()
        &&& self.fixed() == slices::covered(self.ds(), idx)
        &&& layouts::all_met(self.ds().take(idx), self.mines())
    }

    /// The same position in the search.
    spec fn same_place(self, other: Dfs) -> bool {
        &&& self.constraints == other.constraints
        &&& self.assignment@ == other.assignment@
        &&& self.mine_cells@ == other.mine_cells@
        &&& self.max_nodes == other.max_nodes
    }

    /// The same counts.
    spec fn same_counts(self, other: Dfs) -> bool {
        &&& self.ways@ == other.ways@
        &&& self.cell_ways@ == other.cell_ways@
        &&& self.valid_count == other.valid_count
        &&& self.nodes == other.nodes
        &&& self.exhausted == other.exhausted
        &&& self.constraints == other.constraints
        &&& self.max_nodes == other.max_nodes
    }

    /// The counts have grown from `before` by the layouts that extend the partial
    /// assignment of `mines` to `fixed`.
    spec fn counted(self, before: Dfs, fixed: Set<int>, mines: Set<int>) -> bool {
        &&& self.ways@.len() == before.ways@.len()
        &&& self.cell_ways@.len() == before.cell_ways@.len()
        &&& self.valid_count == before.valid_count + slices::slice(before.all(), fixed, mines).len()
        &&& forall|k: int|
            0 <= k <= before.n() ==> #[trigger] self.ways@[k] == before.ways@[k] + slices::slice(
                layouts::with_mines(before.all(), k as nat),
                fixed,
                mines,
            ).len()
        &&& forall|c: int, k: int|
            0 <= c < before.n() && 0 <= k <= before.n() ==> #[trigger] self.cell_ways@[c]@[k]
                == before.cell_ways@[c]@[k] + slices::slice(
                layouts::holding(layouts::with_mines(before.all(), k as nat), c),
                fixed,
                mines,
            ).len()
    }

    /// The counts have grown from `before` by the layouts that a walk over the
    /// choices for `cells` met before `combo`.
    spec fn counted_early(
        self,
        before: Dfs,
        fixed: Set<int>,
        mines: Set<int>,
        cells: Seq<usize>,
        combo: Seq<int>,
    ) -> bool {
        &&& self.ways@.len() == before.ways@.len()
        &&& self.cell_ways@.len() == before.cell_ways@.len()
        &&& self.valid_count == before.valid_count + slices::early(
            before.all(),
            fixed,
            mines,
            cells,
            combo,
        ).len()
        &&& forall|k: int|
            0 <= k <= before.n() ==> #[trigger] self.ways@[k] == before.ways@[k] + slices::early(
                layouts::with_mines(before.all(), k as nat),
                fixed,
                mines,
                cells,
                combo,
            ).len()
        &&& forall|c: int, k: int|
            0 <= c < before.n() && 0 <= k <= before.n() ==> #[trigger] self.cell_ways@[c]@[k]
                == before.cell_ways@[c]@[k] + slices::early(
                layouts::holding(layouts::with_mines(before.all(), k as nat), c),
                fixed,
                mines,
                cells,
                combo,
            ).len()
    }

    /// Marks the open cells of a number: mines at the chosen positions, safe elsewhere.
    fn apply(&mut self, open: &Vec<usize>, combo: &Vec<usize>)
        requires
            old(self).wf(),
            layouts::distinct_below(open@, old(self).n()),
            layouts::cell_set(open@).disjoint(old(self).fixed()),
            combos::ascending(combos::as_ints(combo@), open@.len() as int),
        ensures
            final(self).wf(),
            final(self).same_counts(*old(self)),
            final(self).n() == old(self).n(),
            final(self).fixed() =~= old(self).fixed().union(layouts::cell_set(open@)),
            final(self).mines() =~= old(self).mines().union(
                slices::picked(open@, combos::as_ints(combo@)),
            ),
            final(self).mine_cells@.len() >= old(self).mine_cells@.len(),
            final(self).mine_cells@.take(old(self).mine_cells@.len() as int) =~= old(
                self,
            ).mine_cells@,
            forall|c: int|
                0 <= c < old(self).n() && !layouts::cell_set(open@).contains(c)
                    ==> #[trigger] final(self).assignment@[c] == old(self).assignment@[c],
    {
        let ghost start = *self;
        let ghost n = self.n();
        let ghost picks = combos::as_ints(combo@);
        let mut is_mine: Vec<bool> = Vec::new();
        for j in 0..open.len()
            invariant
                is_mine@.len() == j,
                forall|i: int| 0 <= i < j ==> !#[trigger] is_mine@[i],
        {
            is_mine.push(false);
        }
        for i in 0..combo.len()
            invariant
                is_mine@.len() == open@.len(),
                picks == combos::as_ints(combo@),
                combos::ascending(picks, open@.len() as int),
                forall|p: int|
                    0 <= p < open@.len() ==> (#[trigger] is_mine@[p] <==> exists|x: int|
                        0 <= x < i && #[trigger] picks[x] == p),
        {
            assert(0 <= picks[i as int] < open@.len());
            is_mine.set(combo[i], true);
        }
        for j in 0..open.len()
            invariant
                n == self.n(),
                start.n() == n,
                self.same_counts(start),
                self.wf(),
                is_mine@.len() == open@.len(),
                layouts::distinct_below(open@, n),
                layouts::cell_set(open@).disjoint(start.fixed()),
                self.mine_cells@.len() >= start.mine_cells@.len(),
                self.mine_cells@.take(start.mine_cells@.len() as int) =~= start.mine_cells@,
                forall|i: int|
                    0 <= i < j ==> self.assignment@[(#[trigger] open@[i]) as int] == Some(is_mine@[i]),
                forall|c: int|
                    0 <= c < n && !layouts::cell_set(open@.take(j as int)).contains(c)
                        ==> #[trigger] self.assignment@[c] == start.assignment@[c],
        {
            let cell: usize = open[j];
            let mine: bool = is_mine[j];
            proof {
                assert(open@[j as int] == cell);
                assert(layouts::cell_set(open@).contains(cell as int));
                assert(!layouts::cell_set(open@.take(j as int)).contains(cell as int)) by {
                    if layouts::cell_set(open@.take(j as int)).contains(cell as int) {
                        let i = choose|i: int|
                            0 <= i < open@.take(j as int).len() && #[trigger] open@.take(
                                j as int,
                            )[i] == cell as int;
                        assert(open@[i] == open@[j as int]);
                    }
                }
                assert(!start.fixed().contains(cell as int));
                assert(self.assignment@[cell as int] == start.assignment@[cell as int]);
                assert(self.assignment@[cell as int] is None);
                slices::lemma_cell_set_push(open@.take(j as int), cell);
                assert(open@.take(j as int).push(cell) =~= open@.take(j + 1));
            }
            self.set_cell(cell, mine);
            proof {
                assert forall|i: int| 0 <= i < j + 1 implies self.assignment@[(
                #[trigger] open@[i]) as int] == Some(is_mine@[i]) by {
                    if i < j {
                        assert(open@[i] != open@[j as int]);
                    }
                }
            }
        }
        proof {
            assert(open@.take(open@.len() as int) =~= open@);
            let cells = layouts::cell_set(open@);
            let chosen = slices::picked(open@, picks);
            assert forall|c: int| self.fixed().contains(c) <==> start.fixed().union(
                cells,
            ).contains(c) by {
                if 0 <= c < n && cells.contains(c) {
                    let i = choose|i: int| 0 <= i < open@.len() && #[trigger] open@[i] == c;
                    assert(self.assignment@[open@[i] as int] == Some(is_mine@[i]));
                }
                if cells.contains(c) {
                    let i = choose|i: int| 0 <= i < open@.len() && #[trigger] open@[i] == c;
                    assert(0 <= c < n);
                }
            }
            assert forall|c: int| self.mines().contains(c) <==> start.mines().union(
                chosen,
            ).contains(c) by {
                if cells.contains(c) {
                    let i = choose|i: int| 0 <= i < open@.len() && #[trigger] open@[i] == c;
                    assert(self.assignment@[open@[i] as int] == Some(is_mine@[i]));
                    assert(!start.fixed().contains(c));
                    if is_mine@[i] {
                        let x = choose|x: int| 0 <= x < picks.len() && #[trigger] picks[x] == i;
                        assert(open@[picks[x]] == c);
                    }
                    if chosen.contains(c) {
                        let x = choose|x: int|
                            0 <= x < picks.len() && #[trigger] open@[picks[x]] == c;
                        assert(0 <= picks[x] < open@.len());
                        assert(picks[x] == i);
                    }
                } else {
                    if chosen.contains(c) {
                        let x = choose|x: int|
                            0 <= x < picks.len() && #[trigger] open@[picks[x]] == c;
                        assert(0 <= picks[x] < open@.len());
                        assert(cells.contains(c));
                    }
                }
            }
        }
    }

    /// Records one decision, keeping the stack of mines in step.
    fn set_cell(&mut self, cell: usize, mine: bool)
        requires
            old(self).wf(),
            cell < old(self).n(),
            old(self).assignment@[cell as int] is None,
        ensures
            final(self).wf(),
            final(self).same_counts(*old(self)),
            final(self).assignment@ == old(self).assignment@.update(cell as int, Some(mine)),
            final(self).mine_cells@ == if mine {
                old(self).mine_cells@.push(cell)
            } else {
                old(self).mine_cells@
            },
    {
        let ghost start = *self;
        proof {
            assert(!start.mines().contains(cell as int));
        }
        self.assignment.set(cell, Some(mine));
        if mine {
            self.mine_cells.push(cell);
            proof {
                slices::lemma_cell_set_push(start.mine_cells@, cell);
                assert(layouts::cell_set(start.mine_cells@) =~= start.mines());
                assert(self.mines() =~= start.mines().insert(cell as int));
                assert(layouts::distinct_below(self.mine_cells@, self.n())) by {
                    assert forall|i: int, j: int|
                        0 <= i < j < self.mine_cells@.len() implies self.mine_cells@[i]
                        != self.mine_cells@[j] by {
                        if j == start.mine_cells@.len() {
                            assert(layouts::cell_set(start.mine_cells@).contains(
                                start.mine_cells@[i] as int,
                            ));
                        }
                    }
                }
            }
        } else {
            assert(self.mines() =~= start.mines());
        }
    }

    /// Undoes the decisions made for one number. `keep` is how many mines were on
    /// the stack before them.
    fn clear_cells(&mut self, cells: &Vec<usize>, keep: usize)
        requires
            layouts::distinct_below(cells@, old(self).n()),
            keep <= old(self).mine_cells@.len(),
        ensures
            final(self).same_counts(*old(self)),
            final(self).n() == old(self).n(),
            final(self).mine_cells@ == old(self).mine_cells@.take(keep as int),
            forall|c: int|
                0 <= c < old(self).n() ==> #[trigger] final(self).assignment@[c]
                    == if layouts::cell_set(cells@).contains(c) {
                    None
                } else {
                    old(self).assignment@[c]
                },
    {
        let ghost start = *self;
        self.mine_cells.truncate(keep);
        let mut j: usize = 0;
        while j < cells.len()
            invariant
                j <= cells@.len(),
                layouts::distinct_below(cells@, self.n()),
                self.n() == start.n(),
                self.same_counts(start),
                self.mine_cells@ == start.mine_cells@.take(keep as int),
                forall|c: int|
                    0 <= c < start.n() ==> #[trigger] self.assignment@[c]
                        == if layouts::cell_set(cells@.take(j as int)).contains(c) {
                        None
                    } else {
                        start.assignment@[c]
                    },
            decreases cells@.len() - j,
        {
            proof {
                slices::lemma_cell_set_push(cells@.take(j as int), cells@[j as int]);
                assert(cells@.take(j as int).push(cells@[j as int]) =~= cells@.take(j + 1));
            }
            self.assignment.set(cells[j], None);
            j = j + 1;
        }
        assert(cells@.take(cells@.len() as int) =~= cells@);
    }

    /// Credits the layout at hand to the number of mines it uses.
    fn process_leaf(&mut self)
        requires
            old(self).ready(old(self).ds().len() as int),
            old(self).nodes > 0,
            old(self).counters_within(old(self).nodes - 1),
        ensures
            final(self).wf(),
            final(self).counters_within(old(self).nodes as int),
            final(self).same_place(*old(self)),
            final(self).nodes == old(self).nodes,
            final(self).exhausted == old(self).exhausted,
            final(self).counted(*old(self), old(self).fixed(), old(self).mines()),
    {
        let ghost start = *self;
        let ghost n = self.n();
        let ghost mines = self.mines();
        let ghost all = self.all();
        let k: usize = self.mine_cells.len();
        proof {
            layouts::lemma_cell_set_len(self.mine_cells@, n);
            assert(layouts::cell_set(self.mine_cells@) =~= mines);
            assert(mines.len() == k);
            layouts::lemma_first_cells(n);
            lemma_len_subset(mines, layouts::first_cells(n));
            assert(k <= n);
        }
        self.ways.set(k, self.ways[k] + 1);
        let mut i: usize = 0;
        while i < self.mine_cells.len()
            invariant
                i <= self.mine_cells@.len(),
                self.same_place(start),
                start.wf(),
                start.n() == n,
                k <= n,
                self.wf(),
                self.nodes == start.nodes,
                start.nodes > 0,
                self.exhausted == start.exhausted,
                self.valid_count == start.valid_count,
                start.counters_within(start.nodes - 1),
                self.ways@ == start.ways@.update(k as int, (start.ways@[k as int] + 1) as u64),
                forall|c: int, x: int|
                    0 <= c < n && 0 <= x <= n ==> #[trigger] self.cell_ways@[c]@[x]
                        == start.cell_ways@[c]@[x] + if x == k && layouts::cell_set(
                        self.mine_cells@.take(i as int),
                    ).contains(c) {
                        1int
                    } else {
                        0
                    },
            decreases self.mine_cells@.len() - i,
        {
            let cell: usize = self.mine_cells[i];
            let ghost before = *self;
            let ghost done = self.mine_cells@.take(i as int);
            proof {
                assert(start.cell_ways@[cell as int]@[k as int] <= start.nodes - 1);
                slices::lemma_cell_set_push(done, cell);
                assert(done.push(cell) =~= self.mine_cells@.take(i + 1));
                assert(!layouts::cell_set(done).contains(cell as int)) by {
                    if layouts::cell_set(done).contains(cell as int) {
                        let j = choose|j: int|
                            0 <= j < done.len() && #[trigger] done[j] == cell as int;
                        assert(self.mine_cells@[j] == self.mine_cells@[i as int]);
                    }
                }
                assert(self.cell_ways@[cell as int]@.len() == n + 1);
            }
            let count: u64 = self.cell_ways[cell][k];
            self.cell_ways[cell][k] = count + 1;
            proof {
                assert forall|c: int| 0 <= c < n implies (
                #[trigger] self.cell_ways@[c])@.len() == n + 1 by {
                    assert(before.cell_ways@[c]@.len() == n + 1);
                }
            }
            i = i + 1;
        }
        self.valid_count = self.valid_count + 1;
        proof {
            assert(self.mine_cells@.take(self.mine_cells@.len() as int) =~= self.mine_cells@);
            let ds = start.ds();
            let fixed = start.fixed();
            assert(ds.take(ds.len() as int) =~= ds);
            assert(slices::partials(ds, ds.len() as int) == all);
            assert(mines.subset_of(fixed));
            slices::lemma_self(ds, ds.len() as int, mines);
            let only = Set::<Set<int>>::empty().insert(mines);
            assert(slices::slice(all, fixed, mines) =~= only);
            assert(all.contains(mines)) by {
                assert(only.contains(mines));
            }
            assert forall|x: int| 0 <= x <= n implies #[trigger] self.ways@[x] == start.ways@[x]
                + slices::slice(layouts::with_mines(all, x as nat), fixed, mines).len() by {
                let part = slices::slice(layouts::with_mines(all, x as nat), fixed, mines);
                assert forall|g: Set<int>| part.contains(g) <==> g == mines && x == k by {
                    assert(slices::slice(all, fixed, mines).contains(g) <==> only.contains(g));
                }
                assert(part =~= if x == k {
                    only
                } else {
                    Set::empty()
                });
            }
            assert forall|c: int, x: int| 0 <= c < n && 0 <= x <= n implies #[trigger] self.cell_ways@[c]@[x]
                == start.cell_ways@[c]@[x] + slices::slice(
                layouts::holding(layouts::with_mines(all, x as nat), c),
                fixed,
                mines,
            ).len() by {
                let part = slices::slice(
                    layouts::holding(layouts::with_mines(all, x as nat), c),
                    fixed,
                    mines,
                );
                assert forall|g: Set<int>|
                    part.contains(g) <==> g == mines && x == k && mines.contains(c) by {
                    assert(slices::slice(all, fixed, mines).contains(g) <==> only.contains(g));
                }
                assert(part =~= if x == k && mines.contains(c) {
                    only
                } else {
                    Set::empty()
                });
            }
        }
    }

    /// Visits the node at which the cells of the numbers before `idx` are fixed.
    fn run(&mut self, idx: usize)
        requires
            old(self).ready(idx as int),
            !old(self).exhausted,
        ensures
            final(self).same_place(*old(self)),
            final(self).wf(),
            final(self).exhausted <==> old(self).nodes + slices::nodes_below(
                old(self).ds(),
                idx as int,
                old(self).fixed(),
                old(self).mines(),
            ) > old(self).max_nodes,
            !final(self).exhausted ==> {
                &&& final(self).nodes == old(self).nodes + slices::nodes_below(
                    old(self).ds(),
                    idx as int,
                    old(self).fixed(),
                    old(self).mines(),
                )
                &&& final(self).counters_within(final(self).nodes as int)
                &&& final(self).counted(*old(self), old(self).fixed(), old(self).mines())
            },
        decreases old(self).ds().len() - idx, 1int,
    {
        let ghost start = *self;
        let ghost n = self.n();
        let ghost ds = self.ds();
        let ghost fixed = self.fixed();
        let ghost mines = self.mines();
        proof {
            slices::lemma_self(ds, idx as int, mines);
        }
        if self.nodes == self.max_nodes {
            self.exhausted = true;
            return ;
        }
        self.nodes = self.nodes + 1;
        if idx == self.constraints.len() {
            assert(slices::nodes_below(ds, idx + 1, fixed, mines) == 0);
            self.process_leaf();
            return ;
        }
        let ghost demand = ds[idx as int];
        assert(layouts::distinct_below(demand.cells, n));
        let cells: &Vec<usize> = &self.constraints[idx].0;
        let required: usize = self.constraints[idx].1;
        let mut already: usize = 0;
        let mut open: Vec<usize> = Vec::new();
        for i in 0..cells.len()
            invariant
                cells@ == demand.cells,
                layouts::distinct_below(demand.cells, n),
                self.assignment@.len() == n,
                already <= i,
                already == layouts::mines_among(cells@.take(i as int), self.mines()),
                open@ == slices::outside(cells@.take(i as int), self.fixed()),
        {
            let ghost more = cells@.take(i + 1);
            assert(more.drop_last() =~= cells@.take(i as int));
            assert(more.last() == cells@[i as int]);
            match self.assignment[cells[i]] {
                Some(mine) => {
                    if mine {
                        already = already + 1;
                    }
                },
                None => {
                    open.push(cells[i]);
                },
            }
        }
        proof {
            assert(cells@.take(cells@.len() as int) =~= cells@);
            assert(self.mines() =~= mines);
            assert(self.fixed() =~= fixed);
        }
        if already > required || required - already > open.len() {
            proof {
                slices::lemma_nodes_pruned(ds, n, idx as int, idx + 1, fixed, mines);
                lemma_all_meet(n, ds, idx as int);
                slices::lemma_pruned(start.all(), demand, fixed, mines);
                assert forall|k: int| 0 <= k <= n implies #[trigger] self.ways@[k] == start.ways@[k]
                    + slices::slice(
                    layouts::with_mines(start.all(), k as nat),
                    fixed,
                    mines,
                ).len() by {
                    slices::lemma_pruned(
                        layouts::with_mines(start.all(), k as nat),
                        demand,
                        fixed,
                        mines,
                    );
                }
                assert forall|c: int, k: int|
                    0 <= c < n && 0 <= k <= n implies #[trigger] self.cell_ways@[c]@[k]
                    == start.cell_ways@[c]@[k] + slices::slice(
                    layouts::holding(layouts::with_mines(start.all(), k as nat), c),
                    fixed,
                    mines,
                ).len() by {
                    slices::lemma_pruned(
                        layouts::holding(layouts::with_mines(start.all(), k as nat), c),
                        demand,
                        fixed,
                        mines,
                    );
                }
            }
            return ;
        }
        self.branch(idx, &open, required - already);
    }

    /// Walks every way of choosing `needed` mines among the open cells of number `idx`.
    fn branch(&mut self, idx: usize, open: &Vec<usize>, needed: usize)
        requires
            old(self).ready(idx as int),
            !old(self).exhausted,
            idx < old(self).ds().len(),
            open@ == slices::outside(old(self).ds()[idx as int].cells, old(self).fixed()),
            needed <= open@.len(),
            old(self).ds()[idx as int].mines == layouts::mines_among(
                old(self).ds()[idx as int].cells,
                old(self).mines(),
            ) + needed,
        ensures
            final(self).same_place(*old(self)),
            final(self).wf(),
            final(self).exhausted <==> old(self).nodes + slices::nodes_below(
                old(self).ds(),
                idx + 1,
                old(self).fixed(),
                old(self).mines(),
            ) > old(self).max_nodes,
            !final(self).exhausted ==> {
                &&& final(self).nodes == old(self).nodes + slices::nodes_below(
                    old(self).ds(),
                    idx + 1,
                    old(self).fixed(),
                    old(self).mines(),
                )
                &&& final(self).counters_within(final(self).nodes as int)
                &&& final(self).counted(*old(self), old(self).fixed(), old(self).mines())
            },
        decreases old(self).ds().len() - idx, 0int,
    {
        let ghost start = *self;
        let ghost n = self.n();
        let ghost ds = self.ds();
        let ghost fixed = self.fixed();
        let ghost mines = self.mines();
        let ghost total = slices::nodes_below(ds, idx + 1, fixed, mines);
        let m: usize = open.len();
        let keep: usize = self.mine_cells.len();
        let mut combo: Vec<usize> = combos::start_combination(needed);
        let mut going: bool = true;
        proof {
            assert(layouts::distinct_below(ds[idx as int].cells, n));
            slices::lemma_outside(ds[idx as int].cells, fixed, n);
            let picks = combos::as_ints(combo@);
            assert(combos::ascending(picks, m as int));
            slices::lemma_nodes_walk(ds, n, idx as int, idx + 1, fixed, mines, picks);
            lemma_counted_first(*self, idx as int, open@, needed as nat);
        }
        while going
            invariant
                start == *old(self),
                idx < ds.len(),
                ds.len() == start.constraints@.len(),
                m == open@.len(),
                keep == start.mine_cells@.len(),
                start.ready(idx as int),
                start.n() == n,
                start.ds() == ds,
                start.fixed() == fixed,
                start.mines() == mines,
                open@ == slices::outside(ds[idx as int].cells, fixed),
                layouts::distinct_below(open@, n),
                layouts::cell_set(open@).disjoint(fixed),
                ds[idx as int].mines == layouts::mines_among(ds[idx as int].cells, mines) + needed,
                needed <= m,
                total == slices::nodes_below(ds, idx + 1, fixed, mines),
                self.same_place(start),
                self.wf(),
                combo@.len() == needed,
                combos::ascending(combos::as_ints(combo@), m as int),
                self.exhausted ==> !going && start.nodes + total > start.max_nodes,
                !self.exhausted ==> self.counters_within(self.nodes as int),
                going ==> {
                    &&& !self.exhausted
                    &&& self.nodes == start.nodes + slices::early_nodes(
                        ds,
                        idx + 1,
                        fixed,
                        mines,
                        open@,
                        combos::as_ints(combo@),
                    )
                    &&& self.counted_early(start, fixed, mines, open@, combos::as_ints(combo@))
                },
                !going && !self.exhausted ==> {
                    &&& self.nodes == start.nodes + total
                    &&& self.counted(start, fixed, mines)
                },
            decreases
                    if going {
                        vstd::arithmetic::power::pow(m as int, needed as nat) + 2
                            - combos::weight(combos::as_ints(combo@), m as int)
                    } else {
                        0
                    },
        {
            let ghost here = *self;
            let ghost picks = combos::as_ints(combo@);
            let ghost grown = mines.union(slices::picked(open@, picks));
            assert(here.fixed() =~= fixed);
            assert(here.mines() =~= mines);
            self.apply(open, &combo);
            let ghost applied = *self;
            proof {
                slices::lemma_child(ds, n, idx as int, mines, picks);
                assert(applied.fixed() == slices::covered(ds, idx + 1));
                assert(applied.mines() == grown);
                slices::lemma_nodes_walk(ds, n, idx as int, idx + 1, fixed, mines, picks);
                assert(applied.all() == start.all());
            }
            assert(idx < start.constraints.len());
            self.run(idx + 1);
            self.clear_cells(open, keep);
            proof {
                assert(self.mine_cells@ =~= start.mine_cells@);
                assert(self.assignment@ =~= start.assignment@) by {
                    assert forall|c: int| 0 <= c < n implies #[trigger] self.assignment@[c]
                        == start.assignment@[c] by {
                        if layouts::cell_set(open@).contains(c) {
                            assert(!fixed.contains(c));
                        } else {
                            assert(applied.assignment@[c] == here.assignment@[c]);
                        }
                    }
                }
                assert(self.mines() =~= mines);
                combos::lemma_weight_bound(picks, m as int);
                lemma_pow_nonneg(m as int, needed as nat);
            }
            if self.exhausted {
                going = false;
            } else {
                going = combos::next_combination(&mut combo, m);
                proof {
                    if going {
                        let at = choose|at: int|
                            #![trigger combos::bumped(picks, at)]
                            combos::can_bump(picks, m as int, at) && combos::as_ints(combo@)
                                == combos::bumped(picks, at);
                        combos::lemma_bumped(picks, m as int, at);
                        combos::lemma_weight_grows(picks, combos::as_ints(combo@), m as int);
                        combos::lemma_weight_bound(combos::as_ints(combo@), m as int);
                        lemma_counted_step(start, here, *self, idx as int, open@, picks, at);
                    } else {
                        lemma_counted_last(start, here, *self, idx as int, open@, picks);
                    }
                }
            }
        }
    }
}

/// Every layout meets each number, and so does every part of the layouts.
proof fn lemma_all_meet(n: nat, ds: Seq<Demand>, idx: int)
    requires
        0 <= idx < ds.len(),
    ensures
        slices::family_meets(all_layouts(n, ds), ds[idx]),
        all_layouts(n, ds).finite(),
        forall|k: nat|
            slices::family_meets(#[trigger] layouts::with_mines(all_layouts(n, ds), k), ds[idx]),
        forall|k: nat| (#[trigger] layouts::with_mines(all_layouts(n, ds), k)).finite(),
        forall|k: nat, c: int|
            slices::family_meets(
                #[trigger] layouts::holding(layouts::with_mines(all_layouts(n, ds), k), c),
                ds[idx],
            ),
        forall|k: nat, c: int|
            (#[trigger] layouts::holding(layouts::with_mines(all_layouts(n, ds), k), c)).finite(),
{
    let all = all_layouts(n, ds);
    layouts::lemma_first_cells(n);
    layouts::lemma_layouts_finite(layouts::first_cells(n), ds);
    assert forall|k: nat| (#[trigger] layouts::with_mines(all, k)).finite() by {
        lemma_set_subset_finite(all, layouts::with_mines(all, k));
    }
    assert forall|k: nat, c: int| (#[trigger] layouts::holding(
        layouts::with_mines(all, k),
        c,
    )).finite() by {
        lemma_set_subset_finite(all, layouts::holding(layouts::with_mines(all, k), c));
    }
}

proof fn lemma_pow_nonneg(m: int, k: nat)
    requires
        m >= 0,
    ensures
        vstd::arithmetic::power::pow(m, k) >= 0,
    decreases k,
{
    reveal(vstd::arithmetic::power::pow);
    if k > 0 {
        lemma_pow_nonneg(m, (k - 1) as nat);
        let p = vstd::arithmetic::power::pow(m, (k - 1) as nat);
        assert(m * p >= 0) by (nonlinear_arith)
            requires
                m >= 0,
                p >= 0,
        ;
    }
}

/// Before the first choice nothing has been counted.
proof fn lemma_counted_first(start: Dfs, idx: int, open: Seq<usize>, needed: nat)
    requires
        start.ready(idx),
        idx < start.ds().len(),
        open == slices::outside(start.ds()[idx].cells, start.fixed()),
        start.ds()[idx].mines == layouts::mines_among(start.ds()[idx].cells, start.mines()) + needed,
    ensures
        start.counted_early(start, start.fixed(), start.mines(), open, combos::first_combo(needed)),
{
    let n = start.n();
    let all = start.all();
    let demand = start.ds()[idx];
    let fixed = start.fixed();
    let mines = start.mines();
    lemma_all_meet(n, start.ds(), idx);
    slices::lemma_node_facts(all, demand, fixed, mines, n, needed);
    slices::lemma_early_first(all, fixed, mines, open, n, needed);
    assert forall|k: int| 0 <= k <= n implies #[trigger] start.ways@[k] == start.ways@[k]
        + slices::early(
        layouts::with_mines(all, k as nat),
        fixed,
        mines,
        open,
        combos::first_combo(needed),
    ).len() by {
        let part = layouts::with_mines(all, k as nat);
        slices::lemma_node_facts(part, demand, fixed, mines, n, needed);
        slices::lemma_early_first(part, fixed, mines, open, n, needed);
    }
    assert forall|c: int, k: int| 0 <= c < n && 0 <= k <= n implies #[trigger] start.cell_ways@[c]@[k]
        == start.cell_ways@[c]@[k] + slices::early(
        layouts::holding(layouts::with_mines(all, k as nat), c),
        fixed,
        mines,
        open,
        combos::first_combo(needed),
    ).len() by {
        let part = layouts::holding(layouts::with_mines(all, k as nat), c);
        slices::lemma_node_facts(part, demand, fixed, mines, n, needed);
        slices::lemma_early_first(part, fixed, mines, open, n, needed);
    }
}

/// One more choice has been walked.
proof fn lemma_counted_step(
    start: Dfs,
    before: Dfs,
    after: Dfs,
    idx: int,
    open: Seq<usize>,
    combo: Seq<int>,
    at: int,
)
    requires
        start.ready(idx),
        idx < start.ds().len(),
        before.n() == start.n(),
        before.all() == start.all(),
        open == slices::outside(start.ds()[idx].cells, start.fixed()),
        start.ds()[idx].mines == layouts::mines_among(start.ds()[idx].cells, start.mines())
            + combo.len(),
        combos::ascending(combo, open.len() as int),
        combos::can_bump(combo, open.len() as int, at),
        before.counted_early(start, start.fixed(), start.mines(), open, combo),
        after.counted(
            before,
            start.fixed().union(layouts::cell_set(open)),
            start.mines().union(slices::picked(open, combo)),
        ),
    ensures
        after.counted_early(
            start,
            start.fixed(),
            start.mines(),
            open,
            combos::bumped(combo, at),
        ),
{
    let n = start.n();
    let all = start.all();
    let demand = start.ds()[idx];
    let fixed = start.fixed();
    let mines = start.mines();
    let next = combos::bumped(combo, at);
    lemma_all_meet(n, start.ds(), idx);
    slices::lemma_node_facts(all, demand, fixed, mines, n, combo.len());
    slices::lemma_early_step(all, fixed, mines, open, n, combo, at);
    assert forall|k: int| 0 <= k <= n implies #[trigger] after.ways@[k] == start.ways@[k]
        + slices::early(layouts::with_mines(all, k as nat), fixed, mines, open, next).len() by {
        let part = layouts::with_mines(all, k as nat);
        slices::lemma_node_facts(part, demand, fixed, mines, n, combo.len());
        slices::lemma_early_step(part, fixed, mines, open, n, combo, at);
        assert(before.ways@[k] == start.ways@[k] + slices::early(
            part,
            fixed,
            mines,
            open,
            combo,
        ).len());
    }
    assert forall|c: int, k: int| 0 <= c < n && 0 <= k <= n implies #[trigger] after.cell_ways@[c]@[k]
        == start.cell_ways@[c]@[k] + slices::early(
        layouts::holding(layouts::with_mines(all, k as nat), c),
        fixed,
        mines,
        open,
        next,
    ).len() by {
        let part = layouts::holding(layouts::with_mines(all, k as nat), c);
        slices::lemma_node_facts(part, demand, fixed, mines, n, combo.len());
        slices::lemma_early_step(part, fixed, mines, open, n, combo, at);
        assert(before.cell_ways@[c]@[k] == start.cell_ways@[c]@[k] + slices::early(
            part,
            fixed,
            mines,
            open,
            combo,
        ).len());
    }
}

/// The last choice has been walked.
proof fn lemma_counted_last(
    start: Dfs,
    before: Dfs,
    after: Dfs,
    idx: int,
    open: Seq<usize>,
    combo: Seq<int>,
)
    requires
        start.ready(idx),
        idx < start.ds().len(),
        before.n() == start.n(),
        before.all() == start.all(),
        open == slices::outside(start.ds()[idx].cells, start.fixed()),
        start.ds()[idx].mines == layouts::mines_among(start.ds()[idx].cells, start.mines())
            + combo.len(),
        combos::ascending(combo, open.len() as int),
        combos::at_end(combo, open.len() as int),
        before.counted_early(start, start.fixed(), start.mines(), open, combo),
        after.counted(
            before,
            start.fixed().union(layouts::cell_set(open)),
            start.mines().union(slices::picked(open, combo)),
        ),
    ensures
        after.counted(start, start.fixed(), start.mines()),
{
    let n = start.n();
    let all = start.all();
    let demand = start.ds()[idx];
    let fixed = start.fixed();
    let mines = start.mines();
    lemma_all_meet(n, start.ds(), idx);
    slices::lemma_node_facts(all, demand, fixed, mines, n, combo.len());
    slices::lemma_early_last(all, fixed, mines, open, n, combo);
    assert forall|k: int| 0 <= k <= n implies #[trigger] after.ways@[k] == start.ways@[k]
        + slices::slice(layouts::with_mines(all, k as nat), fixed, mines).len() by {
        let part = layouts::with_mines(all, k as nat);
        slices::lemma_node_facts(part, demand, fixed, mines, n, combo.len());
        slices::lemma_early_last(part, fixed, mines, open, n, combo);
        assert(before.ways@[k] == start.ways@[k] + slices::early(
            part,
            fixed,
            mines,
            open,
            combo,
        ).len());
    }
    assert forall|c: int, k: int| 0 <= c < n && 0 <= k <= n implies #[trigger] after.cell_ways@[c]@[k]
        == start.cell_ways@[c]@[k] + slices::slice(
        layouts::holding(layouts::with_mines(all, k as nat), c),
        fixed,
        mines,
    ).len() by {
        let part = layouts::holding(layouts::with_mines(all, k as nat), c);
        slices::lemma_node_facts(part, demand, fixed, mines, n, combo.len());
        slices::lemma_early_last(part, fixed, mines, open, n, combo);
        assert(before.cell_ways@[c]@[k] == start.cell_ways@[c]@[k] + slices::early(
            part,
            fixed,
            mines,
            open,
            combo,
        ).len());
    }
}

/// Counts the layouts of the cells `0..cells` that agree with every number, or gives
/// up once more than `max_nodes` nodes would have to be visited.
pub fn search(cells: usize, constraints: &Vec<(Vec<usize>, usize)>, max_nodes: usize) -> (result:
    Option<Searched>)
    requires
        cells < usize::MAX,
        slices::well_posed(layouts::demands(constraints@), cells as nat),
    ensures
        result is None <==> slices::search_nodes(layouts::demands(constraints@)) > max_nodes,
        result matches Some(found) ==> {
            &&& solves(found.solution, cells as nat, layouts::demands(constraints@))
            &&& found.layouts == all_layouts(cells as nat, layouts::demands(constraints@)).len()
            &&& found.nodes == slices::search_nodes(layouts::demands(constraints@))
        },
{
    let width: usize = cells + 1;
    let mut assignment: Vec<Option<bool>> = Vec::new();
    let mut cell_ways: Vec<Vec<u64>> = Vec::new();
    for c in 0..cells
        invariant
            assignment@.len() == c,
            cell_ways@.len() == c,
            forall|i: int| 0 <= i < c ==> #[trigger] assignment@[i] is None,
            forall|i: int| 0 <= i < c ==> (#[trigger] cell_ways@[i])@ == Seq::new(width as nat, |k: int| 0u64),
    {
        assignment.push(None);
        cell_ways.push(zeros(width));
    }
    let mut dfs = Dfs {
        constraints,
        assignment,
        ways: zeros(width),
        cell_ways,
        mine_cells: Vec::new(),
        valid_count: 0,
        nodes: 0,
        max_nodes,
        exhausted: false,
    };
    let ghost start = dfs;
    proof {
        let ds = start.ds();
        assert(start.fixed() =~= Set::<int>::empty());
        assert(start.mines() =~= Set::<int>::empty());
        assert(slices::covered(ds, 0) =~= Set::<int>::empty());
        assert(layouts::cell_set(start.mine_cells@) =~= Set::<int>::empty());
        assert(start.ready(0));
    }
    dfs.run(0);
    if dfs.exhausted {
        return None;
    }
    proof {
        let all = start.all();
        lemma_whole(all);
        assert forall|k: int| 0 <= k <= cells implies #[trigger] dfs.ways@[k]
            == layouts::with_mines(all, k as nat).len() by {
            lemma_whole(layouts::with_mines(all, k as nat));
        }
        assert forall|c: int, k: int|
            0 <= c < cells && 0 <= k <= cells implies #[trigger] dfs.cell_ways@[c]@[k]
            == layouts::holding(layouts::with_mines(all, k as nat), c).len() by {
            lemma_whole(layouts::holding(layouts::with_mines(all, k as nat), c));
            assert(start.cell_ways@[c]@[k] == 0);
        }
    }
    Some(
        Searched {
            solution: ComponentSolution { ways: dfs.ways, cell_ways: dfs.cell_ways },
            layouts: dfs.valid_count,
            nodes: dfs.nodes,
        },
    )
}

/// With nothing fixed, a slice is the whole family.
proof fn lemma_whole(family: Set<Set<int>>)
    ensures
        slices::slice(family, Set::empty(), Set::empty()) =~= family,
{
    assert forall|g: Set<int>| family.contains(g) implies slices::slice(
        family,
        Set::empty(),
        Set::empty(),
    ).contains(g) by {
        assert(g.intersect(Set::empty()) =~= Set::<int>::empty());
    }
}

/// A row of zeros.
fn zeros(len: usize) -> (row: Vec<u64>)
    ensures
        row@ == Seq::new(len as nat, |k: int| 0u64),
{
    let mut row: Vec<u64> = Vec::new();
    for i in 0..len
        invariant
            row@ == Seq::new(i as nat, |k: int| 0u64),
    {
        row.push(0);
        assert(row@ =~= Seq::new((i + 1) as nat, |k: int| 0u64));
    }
    row
}

} // verus!
