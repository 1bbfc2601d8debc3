//! Exact mine probabilities by enumerating layouts.
//!
//! Every visible number says "exactly `k` of my unopened neighbours are mines".
//! Instead of sampling boards, the search walks every layout of the cells that
//! numbers speak about, group by group, and counts. The cells that no number speaks
//! about are not searched: how many mines they hold follows from what the groups
//! leave over.

use vstd::prelude::*;
use vstd::set_lib::*;
use crate::board;
use crate::board::Minesweeper;
use crate::capped;
use crate::counting;
use crate::layouts;
use crate::layouts::Demand;
use crate::probability::cache;
use crate::probability::cache::{Key, Signature, SolutionCache};
use crate::probability::combine;
use crate::probability::combine::Combined;
use crate::probability::components;
use crate::probability::components::Component;
use crate::probability::consistent;
use crate::probability::estimate;
use crate::probability::estimate::Estimate;
use crate::probability::groups;
use crate::probability::propagate;
use crate::probability::search;
use crate::probability::search::{ComponentSolution, Searched};
use crate::probability::setup;
use crate::probability::setup::SimSetup;
use crate::probability::slices;
use crate::probability::{ProbabilityStrategy, SimUpdate, Strategy};

verus! {

/// A budget that keeps a single solve inside an interactive frame while still
/// finishing the vast majority of positions.
pub const DEFAULT_MAX_NODES: usize = 1_000_000;

/// The exact estimator.
pub struct ConstraintSearch {
    /// Search nodes to visit before giving up on being exact. The search is
    /// exponential in the size of a group; past this many nodes it reports no
    /// result. `usize::MAX` makes it unbounded.
    pub max_nodes: usize,
    /// Group solutions kept between boards.
    pub cache: SolutionCache,
    /// How many boards it has been asked about.
    pub boards: usize,
}

/// A trustworthy answer for a set-up problem.
pub struct Solved {
    pub combined: Combined,
    /// Layouts found by searching; at least one.
    pub layouts: usize,
    /// Nodes visited.
    pub nodes: usize,
}

// ---------------------------------------------------------------------------
// What a solve does
// ---------------------------------------------------------------------------

/// How far a solve has come.
pub struct Walk {
    /// The keys in the cache, and its size.
    pub keys: Set<Key>,
    pub size: nat,
    /// Lookups that found something, and lookups that did not.
    pub tally: (u32, u32),
    /// Nodes spent and layouts found on groups that were not in the cache.
    pub spent: nat,
    pub found: nat,
}

/// The numbers of a group, by position.
pub open spec fn group_numbers(setup: SimSetup, component: Component) -> Seq<Demand> {
    let ds = layouts::demands(setup.constraints@);
    components::rebased(ds, component.cells@, ds.len() as int)
}

/// What keeping the solution of a group of `n` cells costs.
pub open spec fn entry_cost(key: Key, n: nat) -> nat {
    capped::capped(cache::key_weight(key) + ((n + 1) * 8 + n * ((n + 1) * 8 + 24)))
}

/// One more group: taken from the cache, or searched and kept.
pub open spec fn step(walk: Walk, key: Key, n: nat, nodes: nat, layouts: nat) -> Walk {
    if walk.keys.contains(key) {
        Walk { tally: (walk.tally.0.wrapping_add(1), walk.tally.1), ..walk }
    } else {
        let cost = entry_cost(key, n);
        let full = walk.size + cost > cache::MAX_BYTES;
        Walk {
            keys: if full {
                Set::<Key>::empty().insert(key)
            } else {
                walk.keys.insert(key)
            },
            size: if full {
                cost
            } else {
                walk.size + cost
            },
            tally: (walk.tally.0, walk.tally.1.wrapping_add(1)),
            spent: walk.spent + nodes,
            found: walk.found + layouts,
        }
    }
}

/// The first `i` groups, one after the other.
pub open spec fn walked(start: Walk, setup: SimSetup, components: Seq<Component>, i: int) -> Walk
    decreases i,
{
    if i <= 0 {
        start
    } else {
        let component = components[i - 1];
        let numbers = group_numbers(setup, component);
        step(
            walked(start, setup, components, i - 1),
            cache::key_for(component, setup.hidden_cells@),
            component.cells@.len(),
            slices::search_nodes(numbers),
            search::all_layouts(component.cells@.len(), numbers).len(),
        )
    }
}

impl ConstraintSearch {
    /// The cache holds solutions only.
    pub open spec fn wf(self) -> bool {
        self.cache.wf()
    }

    /// Where a solve starts.
    pub open spec fn start(self) -> Walk {
        Walk {
            keys: self.cache.keys(),
            size: self.cache.size(),
            tally: self.cache.tally(),
            spent: 0,
            found: 0,
        }
    }

    /// A search with a given budget that has not solved anything yet.
    pub open spec fn is_new(self, max_nodes: usize) -> bool {
        &&& self.wf()
        &&& self.max_nodes == max_nodes
        &&& self.boards == 0
        &&& self.start() == (Walk {
            keys: Set::empty(),
            size: 0,
            tally: (0u32, 0u32),
            spent: 0,
            found: 0,
        })
    }

    /// A search with the default budget.
    pub fn new() -> (search: Self)
        ensures
            search.is_new(DEFAULT_MAX_NODES),
    {
        Self { max_nodes: DEFAULT_MAX_NODES, cache: SolutionCache::default(), boards: 0 }
    }

    /// An unbounded search: always exact, however long it takes.
    pub fn exhaustive() -> (search: Self)
        ensures
            search.is_new(usize::MAX),
    {
        Self { max_nodes: usize::MAX, cache: SolutionCache::default(), boards: 0 }
    }

    /// What is told of the cache: nothing before a second board, as long as it is not
    /// known to be kept between moves; then everything since the first.
    pub open spec fn told_counts(self) -> (u32, u32) {
        if self.boards < 2 {
            (0, 0)
        } else {
            self.start().tally
        }
    }

    /// Group solutions found in the cache, and group solutions that had to be computed.
    /// Both are zero for an instance that is not kept between moves.
    pub fn cache_counts(&self) -> (counts: (u32, u32))
        ensures
            counts == self.told_counts(),
    {
        if self.boards < 2 {
            (0, 0)
        } else {
            self.cache.counts()
        }
    }

    /// Whether a walk over some groups stops after `k` of them: the next one is more than
    /// the budget allows, or there is none.
    pub open spec fn stops_at(self, setup: SimSetup, components: Seq<Component>, k: int) -> bool {
        &&& 0 <= k <= components.len()
        &&& walked(self.start(), setup, components, k).spent <= self.max_nodes
        &&& k < components.len() ==> walked(self.start(), setup, components, k + 1).spent
            > self.max_nodes
    }

    /// Whether this is what a solve answers: nothing where the groups take more than the
    /// budget or no layout agrees with the numbers, and else what the layouts come to, with
    /// what was spent and found.
    pub open spec fn answers(
        self,
        setup: SimSetup,
        components: Seq<Component>,
        result: Option<Solved>,
    ) -> bool {
        let end = walked(self.start(), setup, components, components.len() as int);
        &&& components::decomposes(components, layouts::demands(setup.constraints@))
        &&& result is None <==> end.spent > self.max_nodes || combine::setup_layouts(setup).len()
            == 0
        &&& result matches Some(solved) ==> {
            &&& solved.nodes == end.spent
            &&& solved.layouts == if end.found == 0 {
                1
            } else {
                end.found
            }
            &&& solved.combined.total@ == combine::setup_layouts(setup).len()
            &&& solved.combined.mines@.len() == setup.hidden_cells@.len()
            &&& forall|c: int|
                0 <= c < setup.hidden_cells@.len() ==> (#[trigger] solved.combined.mines@[c])@
                    == combine::held(setup, c)
        }
    }

    /// Whether `after` is this search once the groups of a problem are walked: the cache
    /// holds the groups that the budget allowed, and the lookup of the one after them is
    /// counted too.
    pub open spec fn leaves(
        self,
        setup: SimSetup,
        components: Seq<Component>,
        after: ConstraintSearch,
    ) -> bool {
        &&& after.wf()
        &&& after.max_nodes == self.max_nodes
        &&& after.boards == if self.boards < usize::MAX {
            (self.boards + 1) as usize
        } else {
            self.boards
        }
        &&& exists|k: int| #[trigger]
            self.stops_at(setup, components, k) && {
                let done = walked(self.start(), setup, components, k);
                let seen = walked(
                    self.start(),
                    setup,
                    components,
                    if k < components.len() {
                        k + 1
                    } else {
                        k
                    },
                );
                &&& after.start().keys == done.keys
                &&& after.start().size == done.size
                &&& after.start().tally == seen.tally
            }
    }
}

// ---------------------------------------------------------------------------
// Groups can be searched
// ---------------------------------------------------------------------------

/// The numbers of a group speak about distinct positions, and about all of them.
proof fn lemma_group_well_posed(ds: Seq<Demand>, cells: Seq<usize>, n: nat)
    requires
        propagate::proper_demands(ds, n),
        layouts::distinct_below(cells, n),
        cells.len() <= usize::MAX,
        components::is_group(cells, ds),
    ensures
        slices::well_posed(
            components::rebased(ds, cells, ds.len() as int),
            cells.len(),
        ),
{
    let dom = layouts::cell_set(cells);
    let numbers = components::rebased(ds, cells, ds.len() as int);
    groups::lemma_group_whole(cells, ds);
    lemma_rebased_proper(ds, cells, n, ds.len() as int);
    slices::lemma_covered_below(numbers, numbers.len() as int, cells.len());
    assert forall|p: int| layouts::first_cells(cells.len()).contains(p) implies slices::covered(
        numbers,
        numbers.len() as int,
    ).contains(p) by {
        let c = cells[p];
        assert(cells.contains(c));
        assert(components::spoken_of(ds).contains(c as int));
        let i = choose|i: int|
            0 <= i < ds.len() && i < ds.len() && (#[trigger] layouts::cell_set(
                ds[i].cells,
            )).contains(c as int);
        let k = choose|k: int| 0 <= k < ds[i].cells.len() && #[trigger] ds[i].cells[k] == c as int;
        groups::lemma_contains(cells, c);
        assert(dom.contains(ds[i].cells[k] as int));
        assert(dom.contains(ds[i].cells[0] as int));
        groups::lemma_contains(cells, ds[i].cells[0]);
        assert(components::speaks_of(ds[i], cells));
        lemma_rebased_holds(ds, cells, ds.len() as int, i);
        let at = choose|at: int|
            0 <= at < numbers.len() && #[trigger] numbers[at] == components::rebased_one(
                ds[i],
                cells,
            );
        let q = components::place_in(cells, c);
        assert(0 <= q < cells.len() && cells[q] == c);
        assert(q == p);
        assert(numbers[at].cells[k] == p);
        assert(layouts::cell_set(numbers[at].cells).contains(p));
    }
    assert(slices::covered(numbers, numbers.len() as int) =~= layouts::first_cells(cells.len()));
}

proof fn lemma_rebased_proper(ds: Seq<Demand>, cells: Seq<usize>, n: nat, i: int)
    requires
        propagate::proper_demands(ds, n),
        layouts::distinct_below(cells, n),
        cells.len() <= usize::MAX,
        groups::whole(layouts::cell_set(cells), ds),
        0 <= i <= ds.len(),
    ensures
        propagate::proper_demands(components::rebased(ds, cells, i), cells.len()),
    decreases i,
{
    if i > 0 {
        lemma_rebased_proper(ds, cells, n, i - 1);
        let d = ds[i - 1];
        if components::speaks_of(d, cells) {
            let one = components::rebased_one(d, cells);
            groups::lemma_contains(cells, d.cells[0]);
            assert(layouts::distinct_below(d.cells, n));
            assert forall|k: int| 0 <= k < one.cells.len() implies (#[trigger] one.cells[k])
                < cells.len() && cells[one.cells[k] as int] == d.cells[k] by {
                assert(layouts::cell_set(cells).contains(ds[i - 1].cells[k] as int));
                groups::lemma_contains(cells, d.cells[k]);
                let p = components::place_in(cells, d.cells[k]);
                assert(0 <= p < cells.len() && cells[p] == d.cells[k]);
            }
            assert forall|a: int, b: int| 0 <= a < b < one.cells.len() implies one.cells[a]
                != one.cells[b] by {
                assert(cells[one.cells[a] as int] == d.cells[a]);
                assert(cells[one.cells[b] as int] == d.cells[b]);
            }
            assert(layouts::distinct_below(one.cells, cells.len()));
        }
    }
}

/// A number about a group is found among the group's.
proof fn lemma_rebased_holds(ds: Seq<Demand>, cells: Seq<usize>, upto: int, i: int)
    requires
        0 <= i < upto <= ds.len(),
        components::speaks_of(ds[i], cells),
    ensures
        exists|at: int|
            0 <= at < components::rebased(ds, cells, upto).len() && #[trigger] components::rebased(
                ds,
                cells,
                upto,
            )[at] == components::rebased_one(ds[i], cells),
    decreases upto,
{
    let all = components::rebased(ds, cells, upto);
    let front = components::rebased(ds, cells, upto - 1);
    if i < upto - 1 {
        lemma_rebased_holds(ds, cells, upto - 1, i);
        let at = choose|at: int|
            0 <= at < front.len() && #[trigger] front[at] == components::rebased_one(ds[i], cells);
        assert(all[at] == front[at]);
    } else {
        assert(all[front.len() as int] == components::rebased_one(ds[i], cells));
    }
}

/// What the solution of a group of `n` cells weighs.
proof fn lemma_solution_weight(solution: ComponentSolution, n: nat, ds: Seq<Demand>)
    requires
        search::solves(solution, n, ds),
    ensures
        cache::solution_weight(solution) == (n + 1) * 8 + n * ((n + 1) * 8 + 24),
{
    lemma_rows_weight(solution.cell_ways@, n + 1, n as int);
}

proof fn lemma_rows_weight(rows: Seq<Vec<u64>>, width: nat, i: int)
    requires
        0 <= i <= rows.len(),
        forall|c: int| 0 <= c < rows.len() ==> (#[trigger] rows[c])@.len() == width,
    ensures
        cache::rows_weight(rows, i) == i * (width * 8 + 24),
    decreases i,
{
    if i > 0 {
        lemma_rows_weight(rows, width, i - 1);
        assert(rows[i - 1]@.len() == width);
        let row = width * 8 + 24;
        assert((i - 1) * row + row == i * row) by (nonlinear_arith);
    } else {
        assert(0 * (width * 8 + 24) == 0) by (nonlinear_arith);
    }
}

/// A walk only ever spends more.
proof fn lemma_spent_grows(start: Walk, setup: SimSetup, components: Seq<Component>, i: int, j: int)
    requires
        i <= j,
    ensures
        walked(start, setup, components, i).spent <= walked(start, setup, components, j).spent,
    decreases j,
{
    if i < j && j > 0 {
        lemma_spent_grows(start, setup, components, i, j - 1);
    }
}

/// Lists the cells that no number speaks about.
fn list_interior(setup: &SimSetup) -> (interior: Vec<usize>)
    requires
        setup.wf(),
    ensures
        interior@ == combine::interior_of(*setup),
{
    let n: usize = setup.hidden_cells.len();
    let spoken: Vec<bool> = components::mark_spoken(n, &setup.constraints);
    let ghost said = components::spoken_of(layouts::demands(setup.constraints@));
    let ghost inside = layouts::first_cells(n as nat).difference(said);
    let mut interior: Vec<usize> = Vec::new();
    for i in 0..n
        invariant
            spoken@.len() == n,
            propagate::set_flags(spoken@) =~= said,
            inside == layouts::first_cells(n as nat).difference(said),
            interior@ == propagate::listed(inside, i as int),
    {
        assert(propagate::set_flags(spoken@).contains(i as int) <==> spoken@[i as int]);
        if !spoken[i] {
            interior.push(i);
        }
    }
    interior
}

impl ConstraintSearch {
    /// Solves one group: from the cache, or by searching within the budget left.
    /// `None` means that the budget ran out.
    fn solve_group(&mut self, setup: &SimSetup, component: &Component, budget: usize) -> (result: Option<
        (ComponentSolution, usize, usize),
    >)
        requires
            old(self).wf(),
            setup.wf(),
            setup.hidden_cells@.len() + 2 <= usize::MAX,
            layouts::distinct_below(component.cells@, setup.hidden_cells@.len()),
            components::is_group(component.cells@, layouts::demands(setup.constraints@)),
            layouts::demands(component.constraints@) == group_numbers(*setup, *component),
        ensures
            final(self).wf(),
            final(self).max_nodes == old(self).max_nodes,
            ({
                let key = cache::key_for(*component, setup.hidden_cells@);
                let n = component.cells@.len();
                let numbers = group_numbers(*setup, *component);
                let nodes = slices::search_nodes(numbers);
                let count = search::all_layouts(n, numbers).len();
                let known = old(self).start().keys.contains(key);
                let next = step(old(self).start(), key, n, nodes, count);
                &&& result is None <==> !known && nodes > budget
                &&& result matches Some(found) ==> {
                    &&& search::solves(found.0, n, numbers)
                    &&& found.1 == next.spent
                    &&& found.2 == next.found
                    &&& final(self).start().keys == next.keys
                    &&& final(self).start().size == next.size
                }
                &&& result is None ==> {
                    &&& final(self).start().keys == old(self).start().keys
                    &&& final(self).start().size == old(self).start().size
                }
                &&& final(self).start().tally == next.tally
                &&& final(self).boards == old(self).boards
                &&& count <= nodes
            }),
    {
        let ghost ds = layouts::demands(setup.constraints@);
        let ghost numbers = group_numbers(*setup, *component);
        let n: usize = component.cells.len();
        proof {
            lemma_group_well_posed(ds, component.cells@, setup.hidden_cells@.len());
            slices::lemma_leaves_are_nodes(numbers, n as nat, 0);
            layouts::lemma_cell_set_len(component.cells@, setup.hidden_cells@.len());
            layouts::lemma_first_cells(setup.hidden_cells@.len());
            lemma_len_subset(
                layouts::cell_set(component.cells@),
                layouts::first_cells(setup.hidden_cells@.len()),
            );
        }
        let key: Signature = cache::signature(component, &setup.hidden_cells);
        match self.cache.get(&key) {
            Some(solution) => {
                proof {
                    cache::lemma_canonical_solves(numbers, n as nat, solution);
                }
                Some((solution, 0, 0))
            },
            None => match search::search(n, &component.constraints, budget) {
                None => None,
                Some(found) => {
                    let Searched { solution, layouts, nodes }: Searched = found;
                    let kept: ComponentSolution = solution.copy();
                    proof {
                        assert(search::solves(kept, n as nat, numbers));
                        cache::lemma_canonical_solves(numbers, n as nat, kept);
                        lemma_solution_weight(kept, n as nat, numbers);
                    }
                    self.cache.insert(key, kept);
                    Some((solution, nodes, layouts as usize))
                },
            },
        }
    }

    /// Solves every group and combines them, or reports that no trustworthy answer
    /// came out: the budget ran out, or no layout agrees with the numbers.
    pub fn solve(&mut self, setup: &SimSetup) -> (result: Option<Solved>)
        requires
            old(self).wf(),
            setup.wf(),
            setup.hidden_cells@.len() + 2 <= usize::MAX,
        ensures
            final(self).wf(),
            final(self).max_nodes == old(self).max_nodes,
            exists|components: Seq<Component>| #[trigger]
                old(self).answers(*setup, components, result) && old(self).leaves(
                    *setup,
                    components,
                    *final(self),
                ),
            result matches Some(solved) ==> {
                &&& solved.combined.total.wf()
                &&& solved.combined.total@ > 0
                &&& counting::poly_wf(solved.combined.mines@)
            },
    {
        let ghost first = *self;
        let ghost begin = self.start();
        let ghost ds = layouts::demands(setup.constraints@);
        self.boards = self.boards.saturating_add(1);
        assert(self.start() == begin);
        let components: Vec<Component> = components::decompose(setup);
        let interior: Vec<usize> = list_interior(setup);
        let max_nodes: usize = self.max_nodes;
        let mut nodes: usize = 0;
        let mut layouts: usize = 0;
        let mut solutions: Vec<ComponentSolution> = Vec::new();
        for j in 0..components.len()
            invariant
                self.wf(),
                self.max_nodes == max_nodes,
                max_nodes == old(self).max_nodes,
                first == *old(self),
                begin == first.start(),
                self.boards == if first.boards < usize::MAX {
                    (first.boards + 1) as usize
                } else {
                    first.boards
                },
                begin.spent == 0 && begin.found == 0,
                setup.wf(),
                setup.hidden_cells@.len() + 2 <= usize::MAX,
                ds == layouts::demands(setup.constraints@),
                components::decomposes(components@, ds),
                forall|i: int|
                    0 <= i < components@.len() ==> layouts::distinct_below(
                        (#[trigger] components@[i]).cells@,
                        setup.hidden_cells@.len(),
                    ),
                ({
                    let walk = walked(begin, *setup, components@, j as int);
                    &&& nodes == walk.spent
                    &&& layouts == walk.found
                    &&& self.start().keys == walk.keys
                    &&& self.start().size == walk.size
                    &&& self.start().tally == walk.tally
                }),
                nodes <= max_nodes,
                layouts <= nodes,
                solutions@.len() == j,
                forall|i: int|
                    0 <= i < j ==> search::solves(
                        #[trigger] solutions@[i],
                        components@[i].cells@.len(),
                        components::rebased(ds, components@[i].cells@, ds.len() as int),
                    ),
        {
            let ghost before = self.start();
            let ghost component = components@[j as int];
            assert(components::is_group(component.cells@, ds));
            assert(layouts::demands(component.constraints@) == group_numbers(*setup, component));
            assert(layouts::distinct_below(component.cells@, setup.hidden_cells@.len()));
            let ghost walk = walked(begin, *setup, components@, j as int);
            let ghost next = walked(begin, *setup, components@, j + 1);
            match self.solve_group(setup, &components[j], max_nodes - nodes) {
                None => {
                    proof {
                        assert(next.spent > max_nodes);
                        lemma_spent_grows(
                            begin,
                            *setup,
                            components@,
                            j + 1,
                            components@.len() as int,
                        );
                        assert(first.stops_at(*setup, components@, j as int));
                        assert(first.leaves(*setup, components@, *self));
                        assert(first.answers(*setup, components@, None));
                    }
                    return None;
                },
                Some((solution, more, count)) => {
                    proof {
                        assert(before.keys == walk.keys);
                        assert(next.spent == walk.spent + more);
                        assert(next.found == walk.found + count);
                    }
                    nodes = nodes + more;
                    layouts = layouts + count;
                    solutions.push(solution);
                },
            }
        }
        let ghost end = walked(begin, *setup, components@, components@.len() as int);
        proof {
            assert(first.stops_at(*setup, components@, components@.len() as int));
            assert(first.leaves(*setup, components@, *self));
        }
        match combine::combine(setup, &components, &solutions, &interior) {
            None => {
                assert(first.answers(*setup, components@, None));
                None
            },
            Some(combined) => {
                let result = Some(
                    Solved {
                        combined,
                        layouts: if layouts == 0 {
                            1
                        } else {
                            layouts
                        },
                        nodes,
                    },
                );
                assert(first.answers(*setup, components@, result));
                result
            },
        }
    }
}

// ---------------------------------------------------------------------------
// Whole boards
// ---------------------------------------------------------------------------

/// Rough heap cost of an exact solve: the problem, the counts for each group, and
/// what each level of the search holds. The counts are sized as if all cells were
/// one group, which no split exceeds.
pub open spec fn search_memory(setup: SimSetup) -> nat {
    let ds = layouts::demands(setup.constraints@);
    let n = setup.hidden_cells@.len();
    let c = ds.len();
    let tables = n * (n + 1) * 8 + (n + 1) * 8;
    let each = if c == 0 {
        0
    } else {
        setup::counted_cells(ds, c as int) / c
    };
    let frame = each * 8 + each * 8 + each + 64;
    setup::memory(setup) + (n + tables + c * frame)
}

/// Rough heap estimate for an exact solve.
#[verifier::rlimit(50)]
pub fn cs_memory_estimate(setup: &SimSetup) -> (size: usize)
    ensures
        size == capped::capped(search_memory(*setup)),
{
    let n: usize = setup.hidden_cells.len();
    let c: usize = setup.constraints.len();
    let ghost ds = layouts::demands(setup.constraints@);
    let ghost t = setup::counted_cells(ds, ds.len() as int);
    let heap: usize = setup::memory_estimate(setup);
    let counted: usize = setup::count_cells(setup);
    let more: usize = n.saturating_add(1);
    let cells: usize = capped::times(
        n,
        more,
        Ghost(n as nat),
        Ghost((n + 1) as nat),
    );
    let tables: usize = capped::times(
        cells,
        8,
        Ghost(n as nat * (n + 1) as nat),
        Ghost(8),
    ).saturating_add(capped::times(more, 8, Ghost((n + 1) as nat), Ghost(8)));
    let each: usize = if c == 0 {
        0
    } else {
        counted / c
    };
    let frame: usize = capped::scaled(each, 17, 64);
    let ghost exact = if c == 0 {
        0nat
    } else {
        t / (c as nat)
    };
    proof {
        if t > usize::MAX {
            assert(heap == usize::MAX);
        } else {
            assert(each == exact);
        }
    }
    let stack: usize = capped::times(
        c,
        frame,
        Ghost(c as nat),
        Ghost((each * 17 + 64) as nat),
    );
    heap.saturating_add(n).saturating_add(tables).saturating_add(stack)
}

impl ConstraintSearch {
    /// What a solve of a board comes to: the groups of its problem are walked within
    /// the budget.
    pub open spec fn outcome(
        self,
        game: Minesweeper,
        set_up: SimSetup,
        components: Seq<Component>,
        answered: bool,
    ) -> bool {
        &&& set_up.describes(game)
        &&& components::decomposes(components, layouts::demands(set_up.constraints@))
        &&& answered <==> walked(
            self.start(),
            set_up,
            components,
            components.len() as int,
        ).spent <= self.max_nodes && combine::setup_layouts(set_up).len() > 0
    }

    /// Whether an estimate gives every cell its share of the layouts that the player
    /// cannot rule out.
    pub open spec fn exact(game: Minesweeper, estimate: Estimate) -> bool {
        &&& estimate.total@ == consistent::consistent(game).len()
        &&& forall|x: int, y: int|
            game.has(x, y) ==> #[trigger] estimate.at(x, y) == consistent::consistent_with_mine(
                game,
                (x, y),
            ).len()
    }

    /// Whether an estimate gives every cell what the layouts of a problem come to, over as
    /// many as there are.
    pub open spec fn counted(game: Minesweeper, set_up: SimSetup, estimate: Estimate) -> bool {
        let counts = Seq::new(set_up.hidden_cells@.len(), |c: int| combine::held(set_up, c));
        let total = combine::setup_layouts(set_up).len();
        &&& estimate.total@ == total
        &&& forall|x: int, y: int|
            game.has(x, y) ==> #[trigger] estimate.at(x, y) == estimate::reported(
                set_up,
                counts,
                total,
                (x as usize, y as usize),
            )
    }

    /// Whether this is what a solve of a board reports, and `after` this search then.
    pub open spec fn reports(
        self,
        game: Minesweeper,
        update: SimUpdate<Estimate>,
        after: ConstraintSearch,
    ) -> bool {
        &&& update is Done
        &&& update->Done_strategy == Strategy::ConstraintSearch
        &&& update->Done_probs.wf(game.width as int, game.height as int)
        &&& setup::mines_left(game) > setup::unopened(game).len() ==> update->Done_attempts == 0
            && update->Done_valid == 0 && update->Done_memory_bytes == 0 && after == self
        &&& setup::mines_left(game) <= setup::unopened(game).len() ==> exists|
            set_up: SimSetup,
            components: Seq<Component>,
        |
            #![trigger walked(self.start(), set_up, components, components.len() as int)]
            {
                let end = walked(self.start(), set_up, components, components.len() as int);
                &&& self.outcome(game, set_up, components, update->Done_valid > 0)
                &&& self.leaves(set_up, components, after)
                &&& update->Done_valid > 0 ==> Self::counted(game, set_up, update->Done_probs)
                &&& update->Done_memory_bytes == capped::capped(search_memory(set_up))
                &&& update->Done_valid > 0 ==> update->Done_attempts == end.spent
                    && update->Done_valid == if end.found == 0 {
                    1
                } else {
                    end.found
                }
                &&& update->Done_valid == 0 ==> update->Done_attempts == 0
            }
        &&& update->Done_valid == 0 ==> update->Done_probs.total@ == 1 && forall|x: int, y: int|
            game.has(x, y) ==> #[trigger] update->Done_probs.at(x, y) == 0
        &&& update->Done_valid > 0 && consistent::possible(game) ==> Self::exact(
            game,
            update->Done_probs,
        )
    }

    /// Solves a board that has a problem to solve.
    fn estimate(&mut self, game: &Minesweeper, set_up: &SimSetup) -> (result: Option<
        (Estimate, usize, usize),
    >)
        requires
            old(self).wf(),
            game.wf(),
            set_up.describes(*game),
            set_up.wf(),
            setup::unopened(*game).len() <= usize::MAX,
            set_up.hidden_cells@.len() + 2 <= usize::MAX,
        ensures
            final(self).wf(),
            final(self).max_nodes == old(self).max_nodes,
            exists|components: Seq<Component>| #[trigger]
                old(self).outcome(*game, *set_up, components, result is Some) && {
                    &&& old(self).leaves(*set_up, components, *final(self))
                    &&& result matches Some(found) ==> Self::counted(*game, *set_up, found.0)
                } && {
                    let end = walked(
                        old(self).start(),
                        *set_up,
                        components,
                        components.len() as int,
                    );
                    result matches Some(found) ==> found.1 == end.spent && found.2 == if end.found
                        == 0 {
                        1
                    } else {
                        end.found
                    }
                },
            result matches Some(found) ==> {
                &&& found.0.wf(game.width as int, game.height as int)
                &&& consistent::possible(*game) ==> Self::exact(*game, found.0)
            },
    {
        let ghost before = *self;
        match self.solve(set_up) {
            None => {
                proof {
                    let components = choose|components: Seq<Component>| #[trigger]
                        before.answers(*set_up, components, None) && before.leaves(
                            *set_up,
                            components,
                            *self,
                        );
                    assert(before.outcome(*game, *set_up, components, false));
                }
                None
            },
            Some(solved) => {
                proof {
                    let components = choose|components: Seq<Component>| #[trigger]
                        before.answers(*set_up, components, Some(solved)) && before.leaves(
                            *set_up,
                            components,
                            *self,
                        );
                    assert(before.outcome(*game, *set_up, components, true));
                    estimate::lemma_fits(*game, *set_up);
                }
                let estimate: Estimate = estimate::build_probs(
                    &solved.combined.mines,
                    &solved.combined.total,
                    set_up,
                    game.width,
                    game.height,
                );
                proof {
                    let counts = counting::poly(solved.combined.mines@);
                    assert(counts =~= Seq::new(
                        set_up.hidden_cells@.len(),
                        |c: int| combine::held(*set_up, c),
                    ));
                    assert(Self::counted(*game, *set_up, estimate));
                    if consistent::possible(*game) {
                        consistent::law_setup_keeps_the_consistent_layouts(*game, *set_up);
                        assert forall|x: int, y: int| game.has(x, y) implies #[trigger] estimate.at(
                            x,
                            y,
                        ) == consistent::consistent_with_mine(*game, (x, y)).len() by {
                            let p = (x as usize, y as usize);
                            assert(board::spot(p) == (x, y));
                            consistent::lemma_reported(
                                *game,
                                *set_up,
                                counts,
                                solved.combined.total@,
                                p,
                            );
                        }
                    }
                }
                Some((estimate, solved.nodes, solved.layouts))
            },
        }
    }

    /// Solves a board and reports the result.
    ///
    /// There are no intermediate reports. A half-finished exact search is not a
    /// weaker answer, it is a wrong one: a cell can read "never a mine" only because
    /// its layouts have not been reached yet. Where no trustworthy answer came out,
    /// the report counts zero layouts.
    pub fn calculate_with_progress(&mut self, game: &Minesweeper) -> (update: SimUpdate<Estimate>)
        requires
            old(self).can_estimate(*game),
        ensures
            final(self).wf(),
            final(self).max_nodes == old(self).max_nodes,
            old(self).reports(*game, update, *final(self)),
    {
        proof {
            board::lemma_scan_bound(
                setup::unopened_test(*game),
                game.width as int,
                game.height as int,
            );
        }
        match SimSetup::build(game) {
            None => SimUpdate::Done {
                strategy: Strategy::ConstraintSearch,
                attempts: 0,
                valid: 0,
                memory_bytes: 0,
                probs: estimate::empty_estimate(game.width, game.height),
            },
            Some(set_up) => {
                proof {
                    setup::lemma_fewer_cells(*game, set_up);
                }
                let memory_bytes: usize = cs_memory_estimate(&set_up);
                match self.estimate(game, &set_up) {
                    Some((probs, attempts, valid)) => SimUpdate::Done {
                        strategy: Strategy::ConstraintSearch,
                        attempts,
                        valid,
                        memory_bytes,
                        probs,
                    },
                    None => SimUpdate::Done {
                        strategy: Strategy::ConstraintSearch,
                        attempts: 0,
                        valid: 0,
                        memory_bytes,
                        probs: estimate::empty_estimate(game.width, game.height),
                    },
                }
            },
        }
    }
}

impl ProbabilityStrategy for ConstraintSearch {
    type Grid = Estimate;

    open spec fn can_estimate(&self, game: Minesweeper) -> bool {
        self.wf() && game.wf() && game.width * game.height + 2 <= usize::MAX
    }

    /// Runs to completion. The answer gives every cell the share of consistent
    /// layouts in which it is a mine; there is none where the numbers contradict
    /// each other or the budget runs out.
    fn calculate(&mut self, game: &Minesweeper) -> (grid: Option<Estimate>)
        ensures
            final(self).wf(),
            final(self).max_nodes == old(self).max_nodes,
            setup::mines_left(*game) > setup::unopened(*game).len() ==> grid is None && *final(self)
                == *old(self),
            setup::mines_left(*game) <= setup::unopened(*game).len() ==> exists|
                set_up: SimSetup,
                components: Seq<Component>,
            |
                #![trigger walked(old(self).start(), set_up, components, components.len() as int)]
                {
                    &&& old(self).outcome(*game, set_up, components, grid is Some)
                    &&& old(self).leaves(set_up, components, *final(self))
                    &&& grid matches Some(estimate) ==> Self::counted(*game, set_up, estimate)
                },
            grid matches Some(estimate) ==> {
                &&& estimate.wf(game.width as int, game.height as int)
                &&& consistent::possible(*game) ==> Self::exact(*game, estimate)
            },
    {
        proof {
            board::lemma_scan_bound(
                setup::unopened_test(*game),
                game.width as int,
                game.height as int,
            );
        }
        match SimSetup::build(game) {
            None => None,
            Some(set_up) => {
                proof {
                    setup::lemma_fewer_cells(*game, set_up);
                }
                match self.estimate(game, &set_up) {
                    None => None,
                    Some((estimate, _, _)) => Some(estimate),
                }
            },
        }
    }
}

// ---------------------------------------------------------------------------
// Laws of a solve
// ---------------------------------------------------------------------------

/// The nodes that searching the first `i` groups takes, and the layouts that it finds.
pub open spec fn nodes_of(setup: SimSetup, components: Seq<Component>, i: int) -> nat
    decreases i,
{
    if i <= 0 {
        0
    } else {
        nodes_of(setup, components, i - 1) + slices::search_nodes(
            group_numbers(setup, components[i - 1]),
        )
    }
}

pub open spec fn layouts_of(setup: SimSetup, components: Seq<Component>, i: int) -> nat
    decreases i,
{
    if i <= 0 {
        0
    } else {
        layouts_of(setup, components, i - 1) + search::all_layouts(
            components[i - 1].cells@.len(),
            group_numbers(setup, components[i - 1]),
        ).len()
    }
}

/// From an empty cache every group is searched: no two groups have the same squares.
pub proof fn law_an_empty_cache_searches_every_group(
    start: Walk,
    setup: SimSetup,
    components: Seq<Component>,
    i: int,
)
    requires
        setup.wf(),
        setup.hidden_cells@.no_duplicates(),
        components::decomposes(components, layouts::demands(setup.constraints@)),
        start.keys == Set::<Key>::empty(),
        0 <= i <= components.len(),
    ensures
        walked(start, setup, components, i).spent == start.spent + nodes_of(setup, components, i),
        walked(start, setup, components, i).found == start.found + layouts_of(
            setup,
            components,
            i,
        ),
        forall|key: Key| #[trigger]
            walked(start, setup, components, i).keys.contains(key) ==> exists|k: int|
                0 <= k < i && key == cache::key_for(#[trigger] components[k], setup.hidden_cells@),
    decreases i,
{
    if i > 0 {
        law_an_empty_cache_searches_every_group(start, setup, components, i - 1);
        let before = walked(start, setup, components, i - 1);
        let component = components[i - 1];
        let key = cache::key_for(component, setup.hidden_cells@);
        assert(!before.keys.contains(key)) by {
            if before.keys.contains(key) {
                let k = choose|k: int|
                    0 <= k < i - 1 && key == cache::key_for(
                        #[trigger] components[k],
                        setup.hidden_cells@,
                    );
                lemma_other_squares(setup, components, k, i - 1);
            }
        }
        let after = walked(start, setup, components, i);
        assert forall|other: Key| #[trigger] after.keys.contains(other) implies exists|k: int|
            0 <= k < i && other == cache::key_for(
                #[trigger] components[k],
                setup.hidden_cells@,
            ) by {
            if other == key {
                assert(other == cache::key_for(components[i - 1], setup.hidden_cells@));
            } else {
                assert(before.keys.contains(other));
                let k = choose|k: int|
                    0 <= k < i - 1 && other == cache::key_for(
                        #[trigger] components[k],
                        setup.hidden_cells@,
                    );
                assert(other == cache::key_for(components[k], setup.hidden_cells@));
            }
        }
    }
}

/// Two groups of a problem have other squares.
proof fn lemma_other_squares(setup: SimSetup, components: Seq<Component>, i: int, j: int)
    requires
        setup.wf(),
        setup.hidden_cells@.no_duplicates(),
        components::decomposes(components, layouts::demands(setup.constraints@)),
        0 <= i < j < components.len(),
    ensures
        cache::key_for(components[i], setup.hidden_cells@) != cache::key_for(
            components[j],
            setup.hidden_cells@,
        ),
{
    let ds = layouts::demands(setup.constraints@);
    let n = setup.hidden_cells@.len();
    let a = components[i].cells@;
    let b = components[j].cells@;
    assert(components::is_group(a, ds));
    assert(components::is_group(b, ds));
    assert(a[0] < b[0]);
    assert(a.contains(a[0]) && b.contains(b[0]));
    slices::lemma_covered_below(ds, ds.len() as int, n);
    assert(components::spoken_of(ds).contains(a[0] as int));
    assert(components::spoken_of(ds).contains(b[0] as int));
    assert(layouts::first_cells(n).contains(a[0] as int));
    assert(layouts::first_cells(n).contains(b[0] as int));
    let x = cache::key_for(components[i], setup.hidden_cells@);
    let y = cache::key_for(components[j], setup.hidden_cells@);
    assert(x.cells[0] == setup.hidden_cells@[a[0] as int]);
    assert(y.cells[0] == setup.hidden_cells@[b[0] as int]);
}

/// A walk depends on what a problem says and where it starts, not on which of its
/// decompositions is taken: they are the same.
proof fn lemma_one_walk(
    start: Walk,
    a: SimSetup,
    some: Seq<Component>,
    b: SimSetup,
    others: Seq<Component>,
    i: int,
)
    requires
        a.hidden_cells@ == b.hidden_cells@,
        layouts::demands(a.constraints@) == layouts::demands(b.constraints@),
        components::decomposes(some, layouts::demands(a.constraints@)),
        components::decomposes(others, layouts::demands(a.constraints@)),
        0 <= i <= some.len(),
    ensures
        some.len() == others.len(),
        walked(start, a, some, i) == walked(start, b, others, i),
        nodes_of(a, some, i) == nodes_of(b, others, i),
    decreases i,
{
    components::law_there_is_one_decomposition(some, others, layouts::demands(a.constraints@));
    if i > 0 {
        lemma_one_walk(start, a, some, b, others, i - 1);
        assert(some[i - 1].cells@ == others[i - 1].cells@);
        assert(cache::key_for(some[i - 1], a.hidden_cells@) =~= cache::key_for(
            others[i - 1],
            b.hidden_cells@,
        ));
    }
}

/// A search that has nothing in its cache spends what its groups take, whatever its budget:
/// with less than that it has no answer, and with more it has the same one.
pub proof fn law_a_larger_budget_gives_the_same_answer(
    small: ConstraintSearch,
    large: ConstraintSearch,
    setup: SimSetup,
    some: Seq<Component>,
    others: Seq<Component>,
    first: Option<Solved>,
    second: Option<Solved>,
)
    requires
        setup.wf(),
        setup.hidden_cells@.no_duplicates(),
        small.start().keys == Set::<Key>::empty(),
        large.start().keys == Set::<Key>::empty(),
        small.answers(setup, some, first),
        large.answers(setup, others, second),
        small.max_nodes <= large.max_nodes,
    ensures
        nodes_of(setup, some, some.len() as int) == nodes_of(setup, others, others.len() as int),
        nodes_of(setup, some, some.len() as int) > small.max_nodes ==> first is None,
        first matches Some(solved) ==> {
            &&& solved.nodes == nodes_of(setup, some, some.len() as int)
            &&& solved.nodes <= small.max_nodes
            &&& solved.layouts >= 1
            &&& second matches Some(again) && again.nodes == solved.nodes && again.layouts
                == solved.layouts && again.combined.total@ == solved.combined.total@ && (forall|
                c: int,
            |
                0 <= c < setup.hidden_cells@.len() ==> (#[trigger] again.combined.mines@[c])@
                    == solved.combined.mines@[c]@)
        },
{
    let n = some.len() as int;
    law_an_empty_cache_searches_every_group(small.start(), setup, some, n);
    law_an_empty_cache_searches_every_group(
        large.start(),
        setup,
        others,
        others.len() as int,
    );
    lemma_one_walk(small.start(), setup, some, setup, others, n);
    law_an_empty_cache_searches_every_group(small.start(), setup, others, n);
    if first is Some && second is Some {
        assert forall|c: int| 0 <= c < setup.hidden_cells@.len() implies (
        #[trigger] second->0.combined.mines@[c])@ == first->0.combined.mines@[c]@ by {
            assert(first->0.combined.mines@[c]@ == combine::held(setup, c));
        }
    }
}

/// Flags change no answer: searches that start alike, on boards that differ in flags only,
/// both have an answer or neither has, and the answers are the same.
pub proof fn law_flags_do_not_change_the_answer(
    a: Minesweeper,
    b: Minesweeper,
    search: ConstraintSearch,
    other: ConstraintSearch,
    here: SimSetup,
    some: Seq<Component>,
    there: SimSetup,
    others: Seq<Component>,
    answered: bool,
    also: bool,
    first: Estimate,
    second: Estimate,
)
    requires
        setup::shows_the_same(a, b),
        search.start() == other.start(),
        search.max_nodes == other.max_nodes,
        search.outcome(a, here, some, answered),
        other.outcome(b, there, others, also),
        answered ==> ConstraintSearch::counted(a, here, first),
        also ==> ConstraintSearch::counted(b, there, second),
    ensures
        answered == also,
        answered ==> first.same(second, a.width as int, a.height as int),
{
    setup::law_flags_do_not_change_the_problem(a, b);
    lemma_one_walk(search.start(), here, some, there, others, some.len() as int);
    assert(combine::setup_layouts(here) == combine::setup_layouts(there));
    if answered && also {
        let total = combine::setup_layouts(here).len();
        let counts = Seq::new(here.hidden_cells@.len(), |c: int| combine::held(here, c));
        let again = Seq::new(there.hidden_cells@.len(), |c: int| combine::held(there, c));
        assert(counts =~= again);
        assert forall|x: int, y: int| 0 <= x < a.width && 0 <= y < a.height implies
            #[trigger] first.at(x, y) == second.at(x, y) by {
            let p = (x as usize, y as usize);
            assert(a.has(x, y) && b.has(x, y));
            assert(first.at(x, y) == estimate::reported(here, counts, total, p));
            assert(second.at(x, y) == estimate::reported(there, again, total, p));
        }
    }
}

/// A search that has been asked about one board tells nothing of its cache. Once it is asked
/// again it is kept between moves, and tells everything since the first.
pub proof fn law_a_search_tells_of_its_cache_once_it_is_kept(
    first: ConstraintSearch,
    max_nodes: usize,
    here: SimSetup,
    some: Seq<Component>,
    second: ConstraintSearch,
    there: SimSetup,
    others: Seq<Component>,
    third: ConstraintSearch,
)
    requires
        first.is_new(max_nodes),
        first.leaves(here, some, second),
        second.leaves(there, others, third),
    ensures
        first.told_counts() == (0u32, 0u32),
        second.told_counts() == (0u32, 0u32),
        third.told_counts() == third.start().tally,
{
}

/// Every group is looked up once: what the cache has served and missed grows by the groups
/// that were walked, as long as neither has come to the largest number it can hold.
pub proof fn law_every_group_is_looked_up(
    start: Walk,
    setup: SimSetup,
    components: Seq<Component>,
    i: int,
)
    requires
        0 <= i <= components.len(),
        start.tally.0 + components.len() <= u32::MAX,
        start.tally.1 + components.len() <= u32::MAX,
    ensures
        ({
            let end = walked(start, setup, components, i);
            &&& end.tally.0 + end.tally.1 == start.tally.0 + start.tally.1 + i
            &&& end.tally.0 >= start.tally.0
            &&& end.tally.1 >= start.tally.1
            &&& end.tally.0 <= start.tally.0 + i
            &&& end.tally.1 <= start.tally.1 + i
        }),
    decreases i,
{
    if i > 0 {
        law_every_group_is_looked_up(start, setup, components, i - 1);
    }
}

/// What was solved is served from the cache: right after a walk that kept all its groups,
/// walking the same groups again spends nothing.
pub proof fn law_what_is_kept_is_not_searched_again(
    start: Walk,
    setup: SimSetup,
    components: Seq<Component>,
    i: int,
)
    requires
        0 <= i <= components.len(),
        forall|k: int|
            0 <= k < components.len() ==> start.keys.contains(
                cache::key_for(#[trigger] components[k], setup.hidden_cells@),
            ),
    ensures
        walked(start, setup, components, i).spent == start.spent,
        walked(start, setup, components, i).found == start.found,
        walked(start, setup, components, i).keys == start.keys,
    decreases i,
{
    if i > 0 {
        law_what_is_kept_is_not_searched_again(start, setup, components, i - 1);
        assert(start.keys.contains(
            cache::key_for(components[i - 1], setup.hidden_cells@),
        ));
    }
}

/// A search that has nothing in its cache answers every board that is possible, as long as
/// its budget allows for its groups.
pub proof fn law_possible_boards_are_answered(
    search: ConstraintSearch,
    game: Minesweeper,
    set_up: SimSetup,
    components: Seq<Component>,
    answered: bool,
)
    requires
        game.wf(),
        search.outcome(game, set_up, components, answered),
        search.start().keys == Set::<Key>::empty(),
        set_up.wf(),
        setup::unopened(game).len() <= usize::MAX,
        consistent::possible(game),
        nodes_of(set_up, components, components.len() as int) <= search.max_nodes,
    ensures
        answered,
{
    estimate::lemma_fits(game, set_up);
    law_an_empty_cache_searches_every_group(
        search.start(),
        set_up,
        components,
        components.len() as int,
    );
    consistent::law_setup_keeps_the_consistent_layouts(game, set_up);
}

/// The cache stays within its bound, or holds a single group that is too large for it.
pub proof fn law_the_cache_stays_within_its_bound(
    start: Walk,
    setup: SimSetup,
    components: Seq<Component>,
    i: int,
)
    requires
        0 <= i <= components.len(),
        start.size <= cache::MAX_BYTES,
    ensures
        ({
            let end = walked(start, setup, components, i);
            end.size <= cache::MAX_BYTES || exists|k: int|
                0 <= k < i && end.keys == Set::<Key>::empty().insert(
                    cache::key_for(#[trigger] components[k], setup.hidden_cells@),
                )
        }),
    decreases i,
{
    if i > 0 {
        law_the_cache_stays_within_its_bound(start, setup, components, i - 1);
        let before = walked(start, setup, components, i - 1);
        let end = walked(start, setup, components, i);
        let key = cache::key_for(components[i - 1], setup.hidden_cells@);
        if end.size > cache::MAX_BYTES {
            if before.keys.contains(key) {
                assert(end.keys == before.keys);
                let k = choose|k: int|
                    0 <= k < i - 1 && before.keys == Set::<Key>::empty().insert(
                        cache::key_for(#[trigger] components[k], setup.hidden_cells@),
                    );
                assert(end.keys == Set::<Key>::empty().insert(
                    cache::key_for(components[k], setup.hidden_cells@),
                ));
            } else {
                assert(end.keys == Set::<Key>::empty().insert(
                    cache::key_for(components[i - 1], setup.hidden_cells@),
                ));
            }
        }
    }
}

} // verus!
