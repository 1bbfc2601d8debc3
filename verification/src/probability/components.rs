//! Splitting the numbers into independent groups.
//!
//! Two cells are related only if some number counts them both, directly or through
//! a chain of other cells. The cells therefore fall into groups that share no
//! number at all, and a layout of one group constrains a layout of another only
//! through the one fact that the whole board holds a fixed number of mines.
//!
//! Enumerating everything as one problem walks the product of the groups' layouts.
//! Solving each group on its own and combining the results turns that product into
//! a sum.

use vstd::prelude::*;
use crate::layouts;
use crate::layouts::Demand;
use crate::probability::propagate;
use crate::probability::setup::SimSetup;
use crate::probability::slices;

verus! {

/// One independent group: cells bound together by shared numbers.
pub struct Component {
    /// The group's cells, ascending.
    pub cells: Vec<usize>,
    /// The numbers over those cells: positions in `cells`, and how many are mines.
    pub constraints: Vec<(Vec<usize>, usize)>,
}

// ---------------------------------------------------------------------------
// What belongs together
// ---------------------------------------------------------------------------

/// Whether one number counts both cells.
pub open spec fn linked(ds: Seq<Demand>, a: int, b: int) -> bool {
    exists|i: int| #[trigger] counted_together(ds, i, a, b)
}

/// Whether number `i` counts both cells.
pub open spec fn counted_together(ds: Seq<Demand>, i: int, a: int, b: int) -> bool {
    &&& 0 <= i < ds.len()
    &&& layouts::cell_set(ds[i].cells).contains(a)
    &&& layouts::cell_set(ds[i].cells).contains(b)
}

/// A chain of cells in which neighbours are linked.
pub open spec fn chain(ds: Seq<Demand>, path: Seq<int>) -> bool {
    &&& path.len() > 0
    &&& forall|i: int| #![trigger path[i]] 0 <= i < path.len() - 1 ==> linked(ds, path[i], path[i + 1])
}

/// Whether a chain leads from one cell to the other.
pub open spec fn connected(ds: Seq<Demand>, a: int, b: int) -> bool {
    exists|path: Seq<int>| #[trigger] chain(ds, path) && path[0] == a && path.last() == b
}

/// The cells that some number counts.
pub open spec fn spoken_of(ds: Seq<Demand>) -> Set<int> {
    slices::covered(ds, ds.len() as int)
}

/// Where a cell stands in a list of cells.
pub open spec fn place_in(cells: Seq<usize>, c: usize) -> int {
    choose|i: int| 0 <= i < cells.len() && cells[i] == c
}

/// A number over the cells of a group, by position.
pub open spec fn rebased_one(demand: Demand, cells: Seq<usize>) -> Demand {
    Demand {
        cells: Seq::new(
            demand.cells.len(),
            |i: int| place_in(cells, demand.cells[i]) as usize,
        ),
        mines: demand.mines,
    }
}

/// Whether a number speaks about a group.
pub open spec fn speaks_of(demand: Demand, cells: Seq<usize>) -> bool {
    demand.cells.len() > 0 && cells.contains(demand.cells[0])
}

/// Those of the first `i` numbers that speak about a group, by position.
pub open spec fn rebased(ds: Seq<Demand>, cells: Seq<usize>, i: int) -> Seq<Demand>
    decreases i,
{
    if i <= 0 {
        Seq::empty()
    } else {
        let front = rebased(ds, cells, i - 1);
        if speaks_of(ds[i - 1], cells) {
            front.push(rebased_one(ds[i - 1], cells))
        } else {
            front
        }
    }
}

/// Whether a list of cells ascends.
pub open spec fn ascending(cells: Seq<usize>) -> bool {
    forall|i: int, j: int| 0 <= i < j < cells.len() ==> cells[i] < cells[j]
}

/// Whether `cells` are one group: all that is connected with its first cell.
pub open spec fn is_group(cells: Seq<usize>, ds: Seq<Demand>) -> bool {
    &&& cells.len() > 0
    &&& ascending(cells)
    &&& forall|c: usize|
        cells.contains(c) <==> #[trigger] spoken_of(ds).contains(c as int) && connected(
            ds,
            cells[0] as int,
            c as int,
        )
}

/// Whether a list of groups is the whole decomposition, in the order of their
/// first cells.
pub open spec fn decomposes(components: Seq<Component>, ds: Seq<Demand>) -> bool {
    &&& forall|j: int| 0 <= j < components.len() ==> is_group((#[trigger] components[j]).cells@, ds)
    &&& forall|j: int|
        0 <= j < components.len() ==> layouts::demands((#[trigger] components[j]).constraints@)
            == rebased(ds, components[j].cells@, ds.len() as int)
    &&& forall|i: int, j: int|
        0 <= i < j < components.len() ==> (#[trigger] components[i]).cells@[0] < (
        #[trigger] components[j]).cells@[0]
    &&& forall|c: usize| #[trigger]
        spoken_of(ds).contains(c as int) ==> exists|j: int|
            0 <= j < components.len() && (#[trigger] components[j]).cells@.contains(c)
}

// ---------------------------------------------------------------------------
// Chains
// ---------------------------------------------------------------------------

/// A cell is connected with itself.
pub proof fn lemma_connected_self(ds: Seq<Demand>, a: int)
    ensures
        connected(ds, a, a),
{
    let path = seq![a];
    assert(chain(ds, path) && path[0] == a && path.last() == a);
}

/// Linked cells are connected.
pub proof fn lemma_connected_link(ds: Seq<Demand>, i: int, a: int, b: int)
    requires
        counted_together(ds, i, a, b),
    ensures
        connected(ds, a, b),
{
    let path = seq![a, b];
    assert(linked(ds, a, b));
    assert(chain(ds, path)) by {
        assert forall|k: int| #![trigger path[k]] 0 <= k < path.len() - 1 implies linked(
            ds,
            path[k],
            path[k + 1],
        ) by {
            assert(k == 0);
        }
    }
    assert(path[0] == a && path.last() == b);
}

/// Connection goes both ways.
pub proof fn lemma_connected_back(ds: Seq<Demand>, a: int, b: int)
    requires
        connected(ds, a, b),
    ensures
        connected(ds, b, a),
{
    let path = choose|path: Seq<int>| #[trigger]
        chain(ds, path) && path[0] == a && path.last() == b;
    let back = Seq::new(path.len(), |i: int| path[path.len() - 1 - i]);
    assert(chain(ds, back)) by {
        assert forall|i: int| #![trigger back[i]] 0 <= i < back.len() - 1 implies linked(
            ds,
            back[i],
            back[i + 1],
        ) by {
            let k = path.len() - 2 - i;
            assert(back[i] == path[k + 1] && back[i + 1] == path[k]);
            assert(linked(ds, path[k], path[k + 1]));
            let d = choose|d: int| #[trigger] counted_together(ds, d, path[k], path[k + 1]);
            assert(counted_together(ds, d, path[k + 1], path[k]));
        }
    }
    assert(back[0] == b && back.last() == a);
}

/// Chains can be joined.
pub proof fn lemma_connected_join(ds: Seq<Demand>, a: int, b: int, c: int)
    requires
        connected(ds, a, b),
        connected(ds, b, c),
    ensures
        connected(ds, a, c),
{
    let p = choose|path: Seq<int>| #[trigger]
        chain(ds, path) && path[0] == a && path.last() == b;
    let q = choose|path: Seq<int>| #[trigger]
        chain(ds, path) && path[0] == b && path.last() == c;
    let whole = p + q.subrange(1, q.len() as int);
    assert(chain(ds, whole)) by {
        assert forall|i: int| #![trigger whole[i]] 0 <= i < whole.len() - 1 implies linked(
            ds,
            whole[i],
            whole[i + 1],
        ) by {
            if i < p.len() - 1 {
                assert(whole[i] == p[i] && whole[i + 1] == p[i + 1]);
            } else {
                let k = i - (p.len() - 1);
                assert(whole[i] == q[k] && whole[i + 1] == q[k + 1]);
            }
        }
    }
    assert(whole[0] == a);
    assert(whole.last() == c) by {
        if q.len() == 1 {
            assert(whole.last() == p.last());
        }
    }
}

// ---------------------------------------------------------------------------
// A forest of cells
// ---------------------------------------------------------------------------

/// Cells grouped into trees: each points at another cell of its group, and the
/// root of a tree at itself.
pub struct Forest {
    pub parent: Vec<usize>,
    /// The root of each cell's tree.
    pub root: Ghost<Seq<int>>,
    /// Falls along every pointer, so that following pointers ends at the root.
    pub rank: Ghost<Seq<nat>>,
}

impl Forest {
    /// The roots are what following the pointers ends at.
    pub open spec fn wf(self) -> bool {
        let n = self.parent@.len();
        &&& self.root@.len() == n
        &&& self.rank@.len() == n
        &&& forall|i: int| 0 <= i < n ==> (#[trigger] self.parent@[i]) < n
        &&& forall|i: int|
            0 <= i < n ==> #[trigger] self.root@[i] == self.root@[self.parent@[i] as int]
        &&& forall|i: int| 0 <= i < n ==> 0 <= #[trigger] self.root@[i] < n
        &&& forall|i: int|
            #![trigger self.parent@[i]]
            0 <= i < n ==> (self.parent@[i] == i <==> self.root@[i] == i)
        &&& forall|i: int|
            #![trigger self.parent@[i]]
            0 <= i < n && self.parent@[i] != i ==> self.rank@[self.parent@[i] as int]
                < self.rank@[i]
        &&& forall|i: int|
            0 <= i < n ==> #[trigger] self.root@[self.root@[i]] == self.root@[i]
    }

    /// Whether two cells are in one tree.
    pub open spec fn together(self, c: int, d: int) -> bool {
        self.root@[c] == self.root@[d]
    }

    /// Whether `after` is this forest with the trees of two cells joined: the root of the
    /// first cell's is now the root of both.
    pub open spec fn joined(self, a: int, b: int, after: Forest) -> bool {
        &&& after.parent@.len() == self.parent@.len()
        &&& forall|i: int|
            0 <= i < self.parent@.len() ==> #[trigger] after.root@[i] == if self.together(i, b) {
                self.root@[a]
            } else {
                self.root@[i]
            }
    }

    /// Every cell in a tree of its own.
    pub fn new(n: usize) -> (forest: Self)
        ensures
            forest.wf(),
            forest.parent@.len() == n,
            forall|i: int| 0 <= i < n ==> #[trigger] forest.root@[i] == i,
    {
        let mut parent: Vec<usize> = Vec::new();
        for i in 0..n
            invariant
                parent@.len() == i,
                forall|k: int| 0 <= k < i ==> #[trigger] parent@[k] == k,
        {
            parent.push(i);
        }
        Forest {
            parent,
            root: Ghost(Seq::new(n as nat, |i: int| i)),
            rank: Ghost(Seq::new(n as nat, |i: int| 0nat)),
        }
    }

    /// The root of a cell's tree. Pointers passed on the way are shortened.
    pub fn find(&mut self, start: usize) -> (root: usize)
        requires
            old(self).wf(),
            start < old(self).parent@.len(),
        ensures
            final(self).wf(),
            final(self).parent@.len() == old(self).parent@.len(),
            final(self).root == old(self).root,
            root == old(self).root@[start as int],
    {
        let mut i: usize = start;
        while self.parent[i] != i
            invariant
                self.wf(),
                self.parent@.len() == old(self).parent@.len(),
                self.root == old(self).root,
                i < self.parent@.len(),
                start < self.parent@.len(),
                self.root@[i as int] == self.root@[start as int],
            decreases self.rank@[i as int],
        {
            let up: usize = self.parent[i];
            let further: usize = self.parent[up];
            assert(self.root@[up as int] == self.root@[i as int]);
            assert(self.root@[further as int] == self.root@[up as int]);
            assert(self.parent@[up as int] == up || self.rank@[further as int]
                < self.rank@[up as int]);
            let ghost before = *self;
            self.parent.set(i, further);
            proof {
                assert forall|k: int| 0 <= k < self.parent@.len() implies #[trigger] self.root@[k]
                    == self.root@[self.parent@[k] as int] by {
                    assert(before.root@[k] == before.root@[before.parent@[k] as int]);
                }
                assert(self.root@[i as int] != i);
                assert forall|k: int|
                    #![trigger self.parent@[k]]
                    0 <= k < self.parent@.len() implies (self.parent@[k] == k <==> self.root@[k]
                    == k) by {
                    assert(before.parent@[k] == k <==> before.root@[k] == k);
                }
            }
            i = self.parent[i];
        }
        i
    }

    /// Joins the trees of two cells.
    #[verifier::rlimit(50)]
    pub fn union(&mut self, a: usize, b: usize)
        requires
            old(self).wf(),
            a < old(self).parent@.len(),
            b < old(self).parent@.len(),
        ensures
            final(self).wf(),
            old(self).joined(a as int, b as int, *final(self)),
    {
        let ra: usize = self.find(a);
        let rb: usize = self.find(b);
        if ra != rb {
            let ghost before = *self;
            let ghost n = self.parent@.len();
            assert(before.root@[before.root@[a as int]] == ra);
            assert(before.root@[before.root@[b as int]] == rb);
            self.parent.set(rb, ra);
            self.root = Ghost(
                Seq::new(
                    n,
                    |i: int|
                        if before.root@[i] == rb {
                            ra as int
                        } else {
                            before.root@[i]
                        },
                ),
            );
            self.rank = Ghost(
                Seq::new(
                    n,
                    |i: int|
                        if before.root@[i] == rb {
                            before.rank@[i] + before.rank@[ra as int] + 1
                        } else {
                            before.rank@[i]
                        },
                ),
            );
            proof {
                lemma_hung_under(before, ra as int, rb as int, *self);
            }
        }
    }
}

/// One tree hung under the root of another.
#[verifier::spinoff_prover]
proof fn lemma_hung_under(before: Forest, ra: int, rb: int, after: Forest)
    requires
        before.wf(),
        0 <= ra < before.parent@.len(),
        ra <= usize::MAX,
        0 <= rb < before.parent@.len(),
        ra != rb,
        before.root@[ra] == ra,
        before.root@[rb] == rb,
        after.parent@ == before.parent@.update(rb, ra as usize),
        after.root@ == Seq::new(
            before.parent@.len(),
            |i: int|
                if before.root@[i] == rb {
                    ra
                } else {
                    before.root@[i]
                },
        ),
        after.rank@ == Seq::new(
            before.parent@.len(),
            |i: int|
                if before.root@[i] == rb {
                    before.rank@[i] + before.rank@[ra] + 1
                } else {
                    before.rank@[i]
                },
        ),
    ensures
        after.wf(),
{
    let n = before.parent@.len();
    assert forall|k: int| 0 <= k < n implies (#[trigger] after.parent@[k]) < n by {
        assert(before.parent@[k] < n);
    }
    assert forall|k: int| 0 <= k < n implies #[trigger] after.root@[k]
        == after.root@[after.parent@[k] as int] by {
        assert(before.root@[k] == before.root@[before.parent@[k] as int]);
        assert(before.parent@[k] < n);
    }
    assert forall|k: int| #![trigger after.parent@[k]] 0 <= k < n implies (after.parent@[k] == k
        <==> after.root@[k] == k) by {
        assert(before.parent@[k] == k <==> before.root@[k] == k);
    }
    assert forall|k: int|
        #![trigger after.parent@[k]]
        0 <= k < n && after.parent@[k] != k implies after.rank@[after.parent@[k] as int]
        < after.rank@[k] by {
        assert(before.parent@[k] < n);
        assert(before.root@[k] == before.root@[before.parent@[k] as int]);
        assert(before.parent@[rb] == rb <==> before.root@[rb] == rb);
    }
    assert forall|k: int| 0 <= k < n implies #[trigger] after.root@[after.root@[k]]
        == after.root@[k] by {
        assert(before.root@[before.root@[k]] == before.root@[k]);
        assert(0 <= before.root@[k] < n);
    }
    assert forall|k: int| 0 <= k < n implies 0 <= #[trigger] after.root@[k] < n by {
        assert(0 <= before.root@[k] < n);
    }
}

/// Joining trees joins these two and no others: two cells are in one tree afterwards just
/// where they were before, or where one was in the tree of the one cell and the other in
/// that of the other.
pub proof fn law_joining_joins_two_trees(
    before: Forest,
    a: int,
    b: int,
    after: Forest,
    c: int,
    d: int,
)
    requires
        before.joined(a, b, after),
        0 <= a < before.parent@.len(),
        0 <= b < before.parent@.len(),
        0 <= c < before.parent@.len(),
        0 <= d < before.parent@.len(),
    ensures
        after.parent@.len() == before.parent@.len(),
        after.together(a, b),
        after.together(c, d) <==> before.together(c, d) || before.together(c, a)
            && before.together(d, b) || before.together(c, b) && before.together(d, a),
{
    assert(after.root@[a] == if before.together(a, b) {
        before.root@[a]
    } else {
        before.root@[a]
    });
    assert(after.root@[b] == before.root@[a]);
    assert(after.root@[c] == if before.together(c, b) {
        before.root@[a]
    } else {
        before.root@[c]
    });
    assert(after.root@[d] == if before.together(d, b) {
        before.root@[a]
    } else {
        before.root@[d]
    });
}

/// Whether the trees of a forest are the connected cells.
spec fn trees_connect(forest: Forest, ds: Seq<Demand>) -> bool {
    forall|a: int, b: int|
        0 <= a < forest.parent@.len() && 0 <= b < forest.parent@.len() ==> (
        #[trigger] forest.root@[a] == #[trigger] forest.root@[b] <==> connected(ds, a, b))
}

/// Linked cells share a tree once the cells of every number do.
proof fn lemma_chain_one_tree(forest: Forest, ds: Seq<Demand>, n: nat, path: Seq<int>)
    requires
        forest.wf(),
        forest.parent@.len() == n,
        propagate::proper_demands(ds, n),
        forall|d: int, k: int|
            0 <= d < ds.len() && 0 <= k < ds[d].cells.len() ==> forest.root@[(
            #[trigger] ds[d].cells[k]) as int] == forest.root@[ds[d].cells[0] as int],
        chain(ds, path),
        0 <= path[0] < n,
    ensures
        0 <= path.last() < n,
        forest.root@[path.last()] == forest.root@[path[0]],
    decreases path.len(),
{
    if path.len() > 1 {
        let front = path.drop_last();
        assert(chain(ds, front)) by {
            assert forall|i: int| #![trigger front[i]] 0 <= i < front.len() - 1 implies linked(
                ds,
                front[i],
                front[i + 1],
            ) by {
                assert(front[i] == path[i] && front[i + 1] == path[i + 1]);
            }
        }
        lemma_chain_one_tree(forest, ds, n, front);
        let a = path[path.len() - 2];
        let b = path[path.len() - 1];
        assert(front.last() == a);
        assert(linked(ds, a, path[path.len() - 2 + 1]));
        let d = choose|d: int| #[trigger] counted_together(ds, d, a, b);
        assert(layouts::distinct_below(ds[d].cells, n));
        let i = choose|i: int| 0 <= i < ds[d].cells.len() && #[trigger] ds[d].cells[i] == a;
        let j = choose|j: int| 0 <= j < ds[d].cells.len() && #[trigger] ds[d].cells[j] == b;
        assert(forest.root@[ds[d].cells[i] as int] == forest.root@[ds[d].cells[0] as int]);
        assert(forest.root@[ds[d].cells[j] as int] == forest.root@[ds[d].cells[0] as int]);
    }
}

/// Grows the forest in which each tree is a group of connected cells.
fn join_cells(n: usize, constraints: &Vec<(Vec<usize>, usize)>) -> (forest: Forest)
    requires
        propagate::proper_demands(layouts::demands(constraints@), n as nat),
    ensures
        forest.wf(),
        forest.parent@.len() == n,
        trees_connect(forest, layouts::demands(constraints@)),
{
    let ghost ds = layouts::demands(constraints@);
    let mut forest = Forest::new(n);
    proof {
        assert forall|a: int, b: int|
            0 <= a < n && 0 <= b < n && #[trigger] forest.root@[a]
                == #[trigger] forest.root@[b] implies connected(ds, a, b) by {
            lemma_connected_self(ds, a);
        }
    }
    for i in 0..constraints.len()
        invariant
            ds == layouts::demands(constraints@),
            propagate::proper_demands(ds, n as nat),
            forest.wf(),
            forest.parent@.len() == n,
            forall|a: int, b: int|
                0 <= a < n && 0 <= b < n && #[trigger] forest.root@[a] == #[trigger] forest.root@[b]
                    ==> connected(ds, a, b),
            forall|d: int, k: int|
                0 <= d < i && 0 <= k < ds[d].cells.len() ==> forest.root@[(
                #[trigger] ds[d].cells[k]) as int] == forest.root@[ds[d].cells[0] as int],
    {
        let cells: &Vec<usize> = &constraints[i].0;
        assert(cells@ == ds[i as int].cells);
        assert(layouts::distinct_below(ds[i as int].cells, n as nat));
        let mut j: usize = 1;
        while j < cells.len()
            invariant
                ds == layouts::demands(constraints@),
                propagate::proper_demands(ds, n as nat),
                i < ds.len(),
                cells@ == ds[i as int].cells,
                layouts::distinct_below(cells@, n as nat),
                forest.wf(),
                forest.parent@.len() == n,
                j >= 1,
                j <= cells@.len() || cells@.len() == 0,
                forall|a: int, b: int|
                    0 <= a < n && 0 <= b < n && #[trigger] forest.root@[a]
                        == #[trigger] forest.root@[b] ==> connected(ds, a, b),
                forall|d: int, k: int|
                    0 <= d < i && 0 <= k < ds[d].cells.len() ==> forest.root@[(
                    #[trigger] ds[d].cells[k]) as int] == forest.root@[ds[d].cells[0] as int],
                forall|k: int|
                    0 <= k < j && k < cells@.len() ==> forest.root@[(#[trigger] cells@[k]) as int]
                        == forest.root@[cells@[0] as int],
            decreases cells@.len() - j,
        {
            let ghost before = forest;
            let first: usize = cells[0];
            let next: usize = cells[j];
            forest.union(first, next);
            proof {
                assert(counted_together(ds, i as int, first as int, next as int)) by {
                    assert(layouts::cell_set(cells@).contains(cells@[0] as int));
                    assert(layouts::cell_set(cells@).contains(cells@[j as int] as int));
                }
                lemma_connected_link(ds, i as int, first as int, next as int);
                lemma_connected_back(ds, first as int, next as int);
                assert forall|a: int, b: int|
                    0 <= a < n && 0 <= b < n && #[trigger] forest.root@[a]
                        == #[trigger] forest.root@[b] implies connected(ds, a, b) by {
                    let f = first as int;
                    let x = next as int;
                    if before.root@[a] != before.root@[b] {
                        if before.root@[a] == before.root@[x] {
                            assert(before.root@[b] == before.root@[f]);
                            assert(connected(ds, a, x));
                            assert(connected(ds, f, b));
                            lemma_connected_join(ds, a, x, f);
                            lemma_connected_join(ds, a, f, b);
                        } else {
                            assert(before.root@[b] == before.root@[x]);
                            assert(before.root@[a] == before.root@[f]);
                            assert(connected(ds, a, f));
                            assert(connected(ds, x, b));
                            lemma_connected_join(ds, a, f, x);
                            lemma_connected_join(ds, a, x, b);
                        }
                    }
                }
                assert forall|d: int, k: int|
                    0 <= d < i && 0 <= k < ds[d].cells.len() implies forest.root@[(
                #[trigger] ds[d].cells[k]) as int] == forest.root@[ds[d].cells[0] as int] by {
                    assert(layouts::distinct_below(ds[d].cells, n as nat));
                    assert(before.root@[ds[d].cells[k] as int]
                        == before.root@[ds[d].cells[0] as int]);
                }
            }
            j = j + 1;
        }
    }
    proof {
        assert forall|a: int, b: int|
            0 <= a < n && 0 <= b < n implies (#[trigger] forest.root@[a]
            == #[trigger] forest.root@[b] <==> connected(ds, a, b)) by {
            if connected(ds, a, b) {
                let path = choose|path: Seq<int>| #[trigger]
                    chain(ds, path) && path[0] == a && path.last() == b;
                lemma_chain_one_tree(forest, ds, n as nat, path);
            }
        }
    }
    forest
}

/// Marks the cells that some number counts.
pub(crate) fn mark_spoken(n: usize, constraints: &Vec<(Vec<usize>, usize)>) -> (flags: Vec<bool>)
    requires
        propagate::proper_demands(layouts::demands(constraints@), n as nat),
    ensures
        flags@.len() == n,
        propagate::set_flags(flags@) =~= spoken_of(layouts::demands(constraints@)),
{
    let ghost ds = layouts::demands(constraints@);
    let mut flags: Vec<bool> = Vec::new();
    for i in 0..n
        invariant
            flags@.len() == i,
            forall|k: int| 0 <= k < i ==> !#[trigger] flags@[k],
    {
        flags.push(false);
    }
    assert(propagate::set_flags(flags@) =~= Set::<int>::empty());
    assert(slices::covered(ds, 0) =~= Set::<int>::empty());
    for i in 0..constraints.len()
        invariant
            ds == layouts::demands(constraints@),
            propagate::proper_demands(ds, n as nat),
            flags@.len() == n,
            propagate::set_flags(flags@) =~= slices::covered(ds, i as int),
    {
        assert(layouts::distinct_below(ds[i as int].cells, n as nat));
        propagate::set_all(&mut flags, &constraints[i].0);
        proof {
            slices::lemma_covered_step(ds, i as int);
        }
    }
    flags
}

/// What is known of the groups while cells are handed out: the cells below `c` are.
#[verifier::opaque]
spec fn grouping(
    components: Seq<Component>,
    label: Seq<usize>,
    local: Seq<usize>,
    root: Seq<int>,
    spoken: Set<int>,
    n: nat,
    c: int,
) -> bool {
    &&& label.len() == n
    &&& local.len() == c
    &&& components.len() <= c
    &&& forall|j: int|
        #![trigger components[j]]
        0 <= j < components.len() ==> {
            &&& components[j].cells@.len() > 0
            &&& ascending(components[j].cells@)
            &&& components[j].constraints@.len() == 0
        }
    &&& forall|j: int, x: usize|
        0 <= j < components.len() ==> (#[trigger] components[j].cells@.contains(x) <==> x < c
            && spoken.contains(x as int) && label[root[x as int]] == j)
    &&& forall|x: int|
        0 <= x < c && spoken.contains(x) ==> label[#[trigger] root[x]] < components.len()
    &&& forall|x: int|
        0 <= x < c && spoken.contains(x) ==> (#[trigger] local[x])
            < components[label[root[x]] as int].cells@.len()
            && components[label[root[x]] as int].cells@[local[x] as int] == x
    &&& forall|r: int|
        0 <= r < n && (#[trigger] label[r]) < n ==> {
            &&& label[r] < components.len()
            &&& root[components[label[r] as int].cells@[0] as int] == r
        }
    &&& forall|r: int| 0 <= r < n ==> #[trigger] label[r] <= n
    &&& forall|i: int, j: int|
        0 <= i < j < components.len() ==> (#[trigger] components[i]).cells@[0] < (
        #[trigger] components[j]).cells@[0]
}

/// A cell of a tree without a group starts one.
proof fn lemma_group_new(
    groups: Seq<Component>,
    labels: Seq<usize>,
    locals: Seq<usize>,
    root: Seq<int>,
    said: Set<int>,
    n: nat,
    c: int,
    now: Seq<Component>,
)
    requires
        n <= usize::MAX,
        root.len() == n,
        forall|i: int| 0 <= i < n ==> 0 <= #[trigger] root[i] < n,
        0 <= c < n,
        grouping(groups, labels, locals, root, said, n, c),
        said.contains(c),
        labels[root[c]] == n,
        now.len() == groups.len() + 1,
        forall|j: int| 0 <= j < groups.len() ==> #[trigger] now[j] == groups[j],
        now[groups.len() as int].cells@ == seq![c as usize],
        now[groups.len() as int].constraints@.len() == 0,
    ensures
        grouping(
            now,
            labels.update(root[c], groups.len() as usize),
            locals.push(0),
            root,
            said,
            n,
            c + 1,
        ),
{
    reveal(grouping);
    let at = groups.len() as int;
    let r = root[c];
    let label = labels.update(r, at as usize);
    let local = locals.push(0);
    
    assert(now[at].cells@ =~= seq![c as usize]);
    assert forall|j: int, x: usize| 0 <= j < now.len() implies (
    #[trigger] now[j].cells@.contains(x) <==> x < c + 1 && said.contains(x as int)
        && label[root[x as int]] == j) by {
        if x < n {
            assert(0 <= root[x as int] < n);
        }
        if j < at {
            assert(now[j] == groups[j]);
            assert(groups[j].cells@.contains(x) <==> x < c && said.contains(
                x as int,
            ) && labels[root[x as int]] == j);
        } else {
            if x == c {
                assert(now[j].cells@[0] == c);
            }
            if x < c && said.contains(x as int) {
                assert(labels[root[x as int]] < groups.len());
            }
        }
    }
    assert forall|x: int| 0 <= x < c + 1 && said.contains(x) implies label[
    #[trigger] root[x]] < now.len() by {
        assert(0 <= root[x] < n);
        if x < c {
            assert(labels[root[x]] < groups.len());
        }
    }
    assert forall|x: int| 0 <= x < c + 1 && said.contains(x) implies (
    #[trigger] local[x]) < now[label[root[x]] as int].cells@.len()
        && now[label[root[x]] as int].cells@[local[x] as int] == x by {
        assert(0 <= root[x] < n);
        if x < c {
            assert(labels[root[x]] < groups.len());
            assert(locals[x] == local[x]);
        }
    }
    assert forall|q: int| 0 <= q < n && (#[trigger] label[q]) < n implies {
        &&& label[q] < now.len()
        &&& root[now[label[q] as int].cells@[0] as int] == q
    } by {
        if q != r {
            assert(labels[q] < n);
        }
    }
    assert forall|i: int, j: int| 0 <= i < j < now.len() implies (
    #[trigger] now[i]).cells@[0] < (#[trigger] now[j]).cells@[0] by {
        assert(now[i] == groups[i]);
        if j < at {
            assert(now[j] == groups[j]);
        } else {
            assert(groups[i].cells@.contains(groups[i].cells@[0]));
        }
    }
}

/// A cell joins the group of its tree.
proof fn lemma_group_more(
    groups: Seq<Component>,
    labels: Seq<usize>,
    locals: Seq<usize>,
    root: Seq<int>,
    said: Set<int>,
    n: nat,
    c: int,
    now: Seq<Component>,
)
    requires
        n <= usize::MAX,
        root.len() == n,
        forall|i: int| 0 <= i < n ==> 0 <= #[trigger] root[i] < n,
        0 <= c < n,
        grouping(groups, labels, locals, root, said, n, c),
        said.contains(c),
        labels[root[c]] < n,
        groups[labels[root[c]] as int].cells@.len() <= usize::MAX,
        now.len() == groups.len(),
        forall|j: int|
            0 <= j < groups.len() && j != labels[root[c]] ==> #[trigger] now[j] == groups[j],
        now[labels[root[c]] as int].cells@ == groups[labels[root[c]] as int].cells@.push(
            c as usize,
        ),
        now[labels[root[c]] as int].constraints@.len() == 0,
    ensures
        grouping(
            now,
            labels,
            locals.push(groups[labels[root[c]] as int].cells@.len() as usize),
            root,
            said,
            n,
            c + 1,
        ),
{
    reveal(grouping);
    let r = root[c];
    let at = labels[r] as int;
    let label = labels;
    let local = locals.push(groups[at].cells@.len() as usize);
    
    let mine = groups[at].cells@;
    assert(now[at].cells@ == mine.push(c as usize));
    assert forall|j: int|
        #![trigger now[j]]
        0 <= j < now.len() implies {
        &&& now[j].cells@.len() > 0
        &&& ascending(now[j].cells@)
        &&& now[j].constraints@.len() == 0
    } by {
        if j == at {
            assert forall|a: int, b: int|
                0 <= a < b < now[j].cells@.len() implies now[j].cells@[a]
                < now[j].cells@[b] by {
                if b == mine.len() {
                    assert(mine.contains(mine[a]));
                }
            }
        }
    }
    assert forall|j: int, x: usize| 0 <= j < now.len() implies (
    #[trigger] now[j].cells@.contains(x) <==> x < c + 1 && said.contains(x as int)
        && label[root[x as int]] == j) by {
        assert(groups[j].cells@.contains(x) <==> x < c && said.contains(x as int)
            && labels[root[x as int]] == j);
        if j == at {
            if mine.contains(x) {
                let k = choose|k: int| 0 <= k < mine.len() && mine[k] == x;
                assert(now[j].cells@[k] == x);
            }
            if x == c {
                assert(now[j].cells@[mine.len() as int] == c);
            }
            if now[j].cells@.contains(x) && x != c {
                let k = choose|k: int|
                    0 <= k < now[j].cells@.len() && now[j].cells@[k] == x;
                assert(mine[k] == x);
            }
        }
    }
    assert forall|x: int| 0 <= x < c + 1 && said.contains(x) implies (
    #[trigger] local[x]) < now[label[root[x]] as int].cells@.len()
        && now[label[root[x]] as int].cells@[local[x] as int] == x by {
        if x < c {
            assert(locals[x] == local[x]);
            assert(labels[root[x]] < groups.len());
        }
    }
    assert forall|q: int| 0 <= q < n && (#[trigger] label[q]) < n implies {
        &&& label[q] < now.len()
        &&& root[now[label[q] as int].cells@[0] as int] == q
    } by {
        assert(labels[q] < n);
        assert(now[label[q] as int].cells@[0]
            == groups[labels[q] as int].cells@[0]);
    }
    assert forall|i: int, j: int| 0 <= i < j < now.len() implies (
    #[trigger] now[i]).cells@[0] < (#[trigger] now[j]).cells@[0] by {
        assert(groups[i].cells@[0] < groups[j].cells@[0]);
    }
}

/// A cell that no number counts joins no group.
proof fn lemma_group_skip(
    groups: Seq<Component>,
    labels: Seq<usize>,
    locals: Seq<usize>,
    root: Seq<int>,
    said: Set<int>,
    n: nat,
    c: int,
)
    requires
        n <= usize::MAX,
        root.len() == n,
        forall|i: int| 0 <= i < n ==> 0 <= #[trigger] root[i] < n,
        0 <= c < n,
        grouping(groups, labels, locals, root, said, n, c),
        !said.contains(c),
    ensures
        grouping(groups, labels, locals.push(0), root, said, n, c + 1),
{
    reveal(grouping);
    let label = labels;
    let local = locals.push(0);
    assert forall|j: int, x: usize| 0 <= j < groups.len() implies (
    #[trigger] groups[j].cells@.contains(x) <==> x < c + 1 && said.contains(
        x as int,
    ) && label[root[x as int]] == j) by {
        assert(groups[j].cells@.contains(x) <==> x < c && said.contains(x as int)
            && labels[root[x as int]] == j);
    }
    assert forall|x: int| 0 <= x < c + 1 && said.contains(x) implies (
    #[trigger] local[x]) < groups[label[root[x]] as int].cells@.len()
        && groups[label[root[x]] as int].cells@[local[x] as int] == x by {
        assert(locals[x] == local[x]);
    }
}

/// Hands the cells out to their groups, in ascending order. Also gives the group
/// of each root, and each cell's position in its group.
fn group_cells(n: usize, forest: &mut Forest, spoken: &Vec<bool>) -> (result: (
    Vec<Component>,
    Vec<usize>,
    Vec<usize>,
))
    requires
        old(forest).wf(),
        old(forest).parent@.len() == n,
        spoken@.len() == n,
    ensures
        final(forest).wf(),
        final(forest).parent@.len() == n,
        final(forest).root == old(forest).root,
        grouping(
            result.0@,
            result.1@,
            result.2@,
            old(forest).root@,
            propagate::set_flags(spoken@),
            n as nat,
            n as int,
        ),
{
    let ghost root = forest.root@;
    let ghost said = propagate::set_flags(spoken@);
    let mut components: Vec<Component> = Vec::new();
    let mut local: Vec<usize> = Vec::new();
    let mut label: Vec<usize> = Vec::new();
    for i in 0..n
        invariant
            label@.len() == i,
            forall|k: int| 0 <= k < i ==> #[trigger] label@[k] == n,
    {
        label.push(n);
    }
    assert(grouping(components@, label@, local@, root, said, n as nat, 0)) by {
        reveal(grouping);
    }
    for c in 0..n
        invariant
            label@.len() == n,
            forest.wf(),
            forest.parent@.len() == n,
            forest.root@ == root,
            forest.root == old(forest).root,
            spoken@.len() == n,
            said == propagate::set_flags(spoken@),
            grouping(components@, label@, local@, root, said, n as nat, c as int),
    {
        let ghost groups = components@;
        let ghost labels = label@;
        let ghost locals = local@;
        assert(said.contains(c as int) <==> spoken@[c as int]);
        if spoken[c] {
            let r: usize = forest.find(c);
            assert(root[c as int] == r);
            assert(0 <= root[c as int] < n);
            assert(components@.len() <= c && (label@[r as int] < n ==> label@[r as int]
                < components@.len() && components@[label@[r as int] as int].constraints@.len() == 0)
                && label@[r as int] <= n) by {
                reveal(grouping);
            }
            if label[r] == n {
                let at: usize = components.len();
                label.set(r, at);
                let mut cells: Vec<usize> = Vec::new();
                cells.push(c);
                components.push(Component { cells, constraints: Vec::new() });
                local.push(0);
                proof {
                    lemma_group_new(
                        groups,
                        labels,
                        locals,
                        root,
                        said,
                        n as nat,
                        c as int,
                        components@,
                    );
                }
            } else {
                let at: usize = label[r];
                assert(labels[r as int] < n);
                let place: usize = components[at].cells.len();
                components[at].cells.push(c);
                local.push(place);
                proof {
                    lemma_group_more(
                        groups,
                        labels,
                        locals,
                        root,
                        said,
                        n as nat,
                        c as int,
                        components@,
                    );
                }
            }
        } else {
            local.push(0);
            proof {
                lemma_group_skip(groups, labels, locals, root, said, n as nat, c as int);
            }
        }
    }
    (components, label, local)
}

/// Where a cell has been handed out to.
proof fn lemma_handed_out(
    groups: Seq<Component>,
    label: Seq<usize>,
    local: Seq<usize>,
    root: Seq<int>,
    said: Set<int>,
    n: nat,
    c: usize,
)
    requires
        grouping(groups, label, local, root, said, n, n as int),
        root.len() == n,
        c < n,
        0 <= root[c as int] < n,
        said.contains(c as int),
    ensures
        label[root[c as int]] < groups.len(),
        local[c as int] == place_in(groups[label[root[c as int]] as int].cells@, c),
        forall|j: int|
            0 <= j < groups.len() ==> ((#[trigger] groups[j]).cells@.contains(c)
                <==> label[root[c as int]] == j),
{
    reveal(grouping);
    let list = groups[label[root[c as int]] as int].cells@;
    assert(label[root[c as int]] < groups.len());
    assert(list[local[c as int] as int] == c) by {
        assert(local[c as int] < list.len());
    }
    let p = place_in(list, c);
    assert(0 <= p < list.len() && list[p] == c);
    assert(ascending(list));
    assert(p == local[c as int]);
    assert forall|j: int| 0 <= j < groups.len() implies ((#[trigger] groups[j]).cells@.contains(c)
        <==> label[root[c as int]] == j) by {}
}

/// The cells of a number all lie in one tree and are spoken of.
proof fn lemma_one_tree(forest: Forest, ds: Seq<Demand>, n: nat, i: int, k: int)
    requires
        trees_connect(forest, ds),
        forest.wf(),
        forest.parent@.len() == n,
        propagate::proper_demands(ds, n),
        0 <= i < ds.len(),
        0 <= k < ds[i].cells.len(),
    ensures
        spoken_of(ds).contains(ds[i].cells[k] as int),
        ds[i].cells[k] < n,
        forest.root@[ds[i].cells[k] as int] == forest.root@[ds[i].cells[0] as int],
        0 <= forest.root@[ds[i].cells[k] as int] < n,
{
    let cells = ds[i].cells;
    assert(layouts::distinct_below(cells, n));
    assert(layouts::cell_set(cells).contains(cells[k] as int));
    assert(layouts::cell_set(cells).contains(cells[0] as int));
    assert(counted_together(ds, i, cells[k] as int, cells[0] as int));
    lemma_connected_link(ds, i, cells[k] as int, cells[0] as int);
    assert(forest.root@[cells[k] as int] == forest.root@[cells[0] as int]);
    assert(0 <= forest.root@[cells[k] as int] < n);
}

/// Looks the cells of a number up in their group.
fn place_cells(
    cells: &Vec<usize>,
    local: &Vec<usize>,
    Ghost(list): Ghost<Seq<usize>>,
) -> (placed: Vec<usize>)
    requires
        forall|k: int|
            0 <= k < cells@.len() ==> (#[trigger] cells@[k]) < local@.len()
                && local@[cells@[k] as int] == place_in(list, cells@[k]),
    ensures
        placed@ =~= Seq::new(cells@.len(), |k: int| place_in(list, cells@[k]) as usize),
{
    let mut placed: Vec<usize> = Vec::new();
    for k in 0..cells.len()
        invariant
            forall|x: int|
                0 <= x < cells@.len() ==> (#[trigger] cells@[x]) < local@.len()
                    && local@[cells@[x] as int] == place_in(list, cells@[x]),
            placed@.len() == k,
            forall|x: int| 0 <= x < k ==> #[trigger] placed@[x] == place_in(list, cells@[x]),
    {
        assert(cells@[k as int] < local@.len());
        placed.push(local[cells[k]]);
    }
    placed
}

/// The groups, once every cell is handed out, are the connected cells.
proof fn lemma_groups_connect(
    groups: Seq<Component>,
    label: Seq<usize>,
    local: Seq<usize>,
    forest: Forest,
    ds: Seq<Demand>,
    n: nat,
)
    requires
        n <= usize::MAX,
        propagate::proper_demands(ds, n),
        forest.wf(),
        forest.parent@.len() == n,
        trees_connect(forest, ds),
        grouping(groups, label, local, forest.root@, spoken_of(ds), n, n as int),
    ensures
        forall|j: int| 0 <= j < groups.len() ==> is_group((#[trigger] groups[j]).cells@, ds),
        forall|c: usize| #[trigger]
            spoken_of(ds).contains(c as int) ==> exists|j: int|
                0 <= j < groups.len() && (#[trigger] groups[j]).cells@.contains(c),
        forall|j: int|
            0 <= j < groups.len() ==> layouts::distinct_below((#[trigger] groups[j]).cells@, n),
{
    reveal(grouping);
    let root = forest.root@;
    let said = spoken_of(ds);
    slices::lemma_covered_below(ds, ds.len() as int, n);
    assert forall|c: usize| #[trigger] said.contains(c as int) implies c < n && 0
        <= root[c as int] < n by {
        assert(layouts::first_cells(n).contains(c as int));
        assert(0 <= root[c as int] < n);
    }
    assert forall|j: int| 0 <= j < groups.len() implies is_group(
        (#[trigger] groups[j]).cells@,
        ds,
    ) by {
        let list = groups[j].cells@;
        let a = list[0];
        assert(list.contains(a));
        assert(groups[j].cells@.contains(a));
        assert(said.contains(a as int) && label[root[a as int]] == j);
        assert forall|c: usize|
            list.contains(c) <==> #[trigger] said.contains(c as int) && connected(
                ds,
                a as int,
                c as int,
            ) by {
            assert(groups[j].cells@.contains(c) <==> c < n && said.contains(c as int)
                && label[root[c as int]] == j);
            if said.contains(c as int) {
                assert(root[a as int] == root[c as int] <==> connected(ds, a as int, c as int));
                if label[root[c as int]] == j {
                    assert(label[root[c as int]] < n);
                    assert(root[groups[j].cells@[0] as int] == root[c as int]);
                }
            }
        }
    }
    assert forall|c: usize| #[trigger] said.contains(c as int) implies exists|j: int|
        0 <= j < groups.len() && (#[trigger] groups[j]).cells@.contains(c) by {
        let j = label[root[c as int]] as int;
        assert(groups[j].cells@.contains(c));
    }
    assert forall|j: int| 0 <= j < groups.len() implies layouts::distinct_below(
        (#[trigger] groups[j]).cells@,
        n,
    ) by {
        let list = groups[j].cells@;
        assert(ascending(list));
        assert forall|k: int| 0 <= k < list.len() implies (#[trigger] list[k]) < n by {
            assert(groups[j].cells@.contains(list[k]));
        }
    }
}

/// What is known while numbers are handed out: the first `i` are.
spec fn numbers_given(
    components: Seq<Component>,
    groups: Seq<Component>,
    ds: Seq<Demand>,
    i: int,
) -> bool {
    &&& components.len() == groups.len()
    &&& forall|j: int|
        0 <= j < groups.len() ==> (#[trigger] components[j]).cells@ == groups[j].cells@
    &&& forall|j: int|
        0 <= j < groups.len() ==> layouts::demands((#[trigger] components[j]).constraints@)
            == rebased(ds, groups[j].cells@, i)
}

/// Handing one number to its group.
proof fn lemma_number_given(
    before: Seq<Component>,
    after: Seq<Component>,
    groups: Seq<Component>,
    ds: Seq<Demand>,
    i: int,
    at: int,
)
    requires
        0 <= i < ds.len(),
        numbers_given(before, groups, ds, i),
        0 <= at < groups.len(),
        after.len() == before.len(),
        forall|j: int| 0 <= j < groups.len() && j != at ==> #[trigger] after[j] == before[j],
        after[at].cells@ == before[at].cells@,
        layouts::demands(after[at].constraints@) == layouts::demands(before[at].constraints@).push(
            rebased_one(ds[i], groups[at].cells@),
        ),
        ds[i].cells.len() > 0,
        forall|j: int|
            0 <= j < groups.len() ==> ((#[trigger] groups[j]).cells@.contains(ds[i].cells[0])
                <==> j == at),
    ensures
        numbers_given(after, groups, ds, i + 1),
{
    assert forall|j: int| 0 <= j < groups.len() implies layouts::demands(
        (#[trigger] after[j]).constraints@,
    ) == rebased(ds, groups[j].cells@, i + 1) && after[j].cells@ == groups[j].cells@ by {
        assert(before[j].cells@ == groups[j].cells@);
        assert(groups[j].cells@.contains(ds[i].cells[0]) <==> j == at);
    }
}

/// Partitions the cells that some number counts into groups of connected cells.
///
/// Cells in no number are absent: they are the interior, which no number speaks
/// about. A number about no cell belongs to no group.
pub fn decompose(setup: &SimSetup) -> (components: Vec<Component>)
    requires
        propagate::proper_demands(
            layouts::demands(setup.constraints@),
            setup.hidden_cells@.len(),
        ),
    ensures
        decomposes(components@, layouts::demands(setup.constraints@)),
        forall|j: int|
            0 <= j < components@.len() ==> layouts::distinct_below(
                (#[trigger] components@[j]).cells@,
                setup.hidden_cells@.len(),
            ),
{
    let n: usize = setup.hidden_cells.len();
    let constraints: &Vec<(Vec<usize>, usize)> = &setup.constraints;
    let ghost ds = layouts::demands(constraints@);
    let mut forest = join_cells(n, constraints);
    let spoken: Vec<bool> = mark_spoken(n, constraints);
    let ghost grown = forest;
    let (grouped, label, local): (Vec<Component>, Vec<usize>, Vec<usize>) = group_cells(
        n,
        &mut forest,
        &spoken,
    );
    let ghost root = forest.root@;
    let ghost groups = grouped@;
    let ghost said = spoken_of(ds);
    proof {
        reveal(grouping);
        assert(trees_connect(forest, ds)) by {
            assert forall|a: int, b: int|
                0 <= a < forest.parent@.len() && 0 <= b < forest.parent@.len() implies (
            #[trigger] forest.root@[a] == #[trigger] forest.root@[b] <==> connected(ds, a, b)) by {
                assert(grown.root@[a] == grown.root@[b] <==> connected(ds, a, b));
            }
        }
        assert forall|j: int| 0 <= j < groups.len() implies layouts::demands(
            (#[trigger] groups[j]).constraints@,
        ) == rebased(ds, groups[j].cells@, 0) by {
            assert(layouts::demands(groups[j].constraints@) =~= Seq::<Demand>::empty());
        }
        lemma_groups_connect(groups, label@, local@, forest, ds, n as nat);
    }
    let components: Vec<Component> = hand_numbers(
        n,
        constraints,
        grouped,
        &label,
        &local,
        &mut forest,
    );
    proof {
        assert forall|j: int| 0 <= j < components@.len() implies is_group(
            (#[trigger] components@[j]).cells@,
            ds,
        ) && layouts::distinct_below(components@[j].cells@, n as nat) by {
            assert(is_group(groups[j].cells@, ds));
        }
        assert forall|i: int, j: int| 0 <= i < j < components@.len() implies (
        #[trigger] components@[i]).cells@[0] < (#[trigger] components@[j]).cells@[0] by {
            assert(groups[i].cells@[0] < groups[j].cells@[0]);
        }
        assert forall|c: usize| #[trigger] said.contains(c as int) implies exists|j: int|
            0 <= j < components@.len() && (#[trigger] components@[j]).cells@.contains(c) by {
            let j = choose|j: int|
                0 <= j < groups.len() && (#[trigger] groups[j]).cells@.contains(c);
            assert(components@[j].cells@.contains(c));
        }
    }
    components
}

/// Finds the group of a number, and where the number's cells stand in it.
fn place_number(
    n: usize,
    cells: &Vec<usize>,
    label: &Vec<usize>,
    local: &Vec<usize>,
    forest: &mut Forest,
    Ghost(ds): Ghost<Seq<Demand>>,
    Ghost(groups): Ghost<Seq<Component>>,
    Ghost(i): Ghost<int>,
) -> (result: (usize, Vec<usize>))
    requires
        label@.len() == n,
        local@.len() == n,
        propagate::proper_demands(ds, n as nat),
        0 <= i < ds.len(),
        ds[i].cells == cells@,
        cells@.len() > 0,
        old(forest).wf(),
        old(forest).parent@.len() == n,
        trees_connect(*old(forest), ds),
        grouping(
            groups,
            label@,
            local@,
            old(forest).root@,
            spoken_of(ds),
            n as nat,
            n as int,
        ),
    ensures
        final(forest).wf(),
        final(forest).parent@.len() == n,
        final(forest).root@ == old(forest).root@,
        trees_connect(*final(forest), ds),
        result.0 < groups.len(),
        result.1@ == rebased_one(ds[i], groups[result.0 as int].cells@).cells,
        forall|j: int|
            0 <= j < groups.len() ==> ((#[trigger] groups[j]).cells@.contains(ds[i].cells[0])
                <==> j == result.0),
{
    let ghost root = forest.root@;
    let ghost held = *forest;
    let ghost said = spoken_of(ds);
    proof {
        lemma_one_tree(*forest, ds, n as nat, i, 0);
        lemma_handed_out(groups, label@, local@, root, said, n as nat, cells@[0]);
    }
    let r: usize = forest.find(cells[0]);
    proof {
        assert forall|a: int, b: int| 0 <= a < n && 0 <= b < n implies (
        #[trigger] forest.root@[a] == #[trigger] forest.root@[b] <==> connected(ds, a, b)) by {
            assert(held.root@[a] == held.root@[b] <==> connected(ds, a, b));
        }
    }
    let at: usize = label[r];
    let ghost list = groups[at as int].cells@;
    proof {
        assert forall|k: int| 0 <= k < cells@.len() implies (#[trigger] cells@[k]) < local@.len()
            && local@[cells@[k] as int] == place_in(list, cells@[k]) by {
            lemma_one_tree(held, ds, n as nat, i, k);
            lemma_handed_out(groups, label@, local@, root, said, n as nat, cells@[k]);
        }
    }
    let placed: Vec<usize> = place_cells(cells, local, Ghost(list));
    assert(placed@ =~= rebased_one(ds[i], list).cells);
    (at, placed)
}

/// Adds a number to a group.
fn give_number(components: &mut Vec<Component>, at: usize, placed: Vec<usize>, mines: usize)
    requires
        at < old(components)@.len(),
    ensures
        final(components)@.len() == old(components)@.len(),
        forall|j: int|
            0 <= j < old(components)@.len() && j != at ==> #[trigger] final(components)@[j] == old(
                components)@[j],
        final(components)@[at as int].cells@ == old(components)@[at as int].cells@,
        layouts::demands(final(components)@[at as int].constraints@) == layouts::demands(
            old(components)@[at as int].constraints@,
        ).push(Demand { cells: placed@, mines: mines as nat }),
{
    let ghost before = components@;
    let ghost new = Demand { cells: placed@, mines: mines as nat };
    components[at].constraints.push((placed, mines));
    assert(layouts::demands(components@[at as int].constraints@) =~= layouts::demands(
        before[at as int].constraints@,
    ).push(new));
}

/// Hands every number to its group.
#[verifier::rlimit(50)]
fn hand_numbers(
    n: usize,
    constraints: &Vec<(Vec<usize>, usize)>,
    grouped: Vec<Component>,
    label: &Vec<usize>,
    local: &Vec<usize>,
    forest: &mut Forest,
) -> (components: Vec<Component>)
    requires
        propagate::proper_demands(layouts::demands(constraints@), n as nat),
        old(forest).wf(),
        old(forest).parent@.len() == n,
        trees_connect(*old(forest), layouts::demands(constraints@)),
        grouping(
            grouped@,
            label@,
            local@,
            old(forest).root@,
            spoken_of(layouts::demands(constraints@)),
            n as nat,
            n as int,
        ),
        numbers_given(grouped@, grouped@, layouts::demands(constraints@), 0),
    ensures
        numbers_given(
            components@,
            grouped@,
            layouts::demands(constraints@),
            constraints@.len() as int,
        ),
{
    let ghost groups = grouped@;
    let ghost ds = layouts::demands(constraints@);
    let ghost said = spoken_of(ds);
    let ghost root = forest.root@;
    let mut components: Vec<Component> = grouped;
    assert(label@.len() == n && local@.len() == n) by {
        reveal(grouping);
    }
    for i in 0..constraints.len()
        invariant
            label@.len() == n,
            local@.len() == n,
            ds == layouts::demands(constraints@),
            propagate::proper_demands(ds, n as nat),
            forest.wf(),
            forest.parent@.len() == n,
            forest.root@ == root,
            trees_connect(*forest, ds),
            said == spoken_of(ds),
            grouping(groups, label@, local@, root, said, n as nat, n as int),
            numbers_given(components@, groups, ds, i as int),
    {
        let cells: &Vec<usize> = &constraints[i].0;
        let ghost before = components@;
        assert(ds[i as int].cells == cells@);
        if cells.len() > 0 {
            let (at, placed): (usize, Vec<usize>) = place_number(
                n,
                cells,
                label,
                local,
                forest,
                Ghost(ds),
                Ghost(groups),
                Ghost(i as int),
            );
            give_number(&mut components, at, placed, constraints[i].1);
            proof {
                lemma_number_given(before, components@, groups, ds, i as int, at as int);
            }
        } else {
            assert(numbers_given(components@, groups, ds, i + 1));
        }
    }
    components
}

// ---------------------------------------------------------------------------
// One decomposition
// ---------------------------------------------------------------------------

/// Ascending lists with the same members are equal.
proof fn lemma_same_members(a: Seq<usize>, b: Seq<usize>)
    requires
        ascending(a),
        ascending(b),
        forall|c: usize| #[trigger] a.contains(c) <==> b.contains(c),
    ensures
        a == b,
    decreases a.len(),
{
    if a.len() == 0 {
        if b.len() > 0 {
            assert(b.contains(b[0]));
            assert(a.contains(b[0]));
        }
        assert(a =~= b);
    } else {
        assert(a.contains(a[0]));
        assert(b.len() > 0);
        let x = a[a.len() - 1];
        let y = b[b.len() - 1];
        assert(a.contains(x) && b.contains(y));
        assert(x == y) by {
            let i = choose|i: int| 0 <= i < b.len() && b[i] == x;
            assert(a.contains(y));
            let j = choose|j: int| 0 <= j < a.len() && a[j] == y;
        }
        let less = a.drop_last();
        let fewer = b.drop_last();
        assert forall|c: usize| #[trigger] less.contains(c) <==> fewer.contains(c) by {
            if less.contains(c) {
                let i = choose|i: int| 0 <= i < less.len() && less[i] == c;
                assert(a[i] == c);
                assert(a.contains(a[i]));
                assert(b.contains(c));
                let j = choose|j: int| 0 <= j < b.len() && b[j] == c;
                assert(fewer[j] == c);
            }
            if fewer.contains(c) {
                let j = choose|j: int| 0 <= j < fewer.len() && fewer[j] == c;
                assert(b[j] == c);
                assert(b.contains(b[j]));
                assert(a.contains(c));
                let i = choose|i: int| 0 <= i < a.len() && a[i] == c;
                assert(less[i] == c);
            }
        }
        lemma_same_members(less, fewer);
        assert(a =~= less.push(x));
        assert(b =~= fewer.push(y));
    }
}

/// Groups that share a cell are the same.
proof fn lemma_groups_that_meet(a: Seq<usize>, b: Seq<usize>, ds: Seq<Demand>, c: usize)
    requires
        is_group(a, ds),
        is_group(b, ds),
        a.contains(c),
        b.contains(c),
    ensures
        a == b,
{
    assert(spoken_of(ds).contains(c as int));
    lemma_connected_back(ds, a[0] as int, c as int);
    lemma_connected_back(ds, b[0] as int, c as int);
    assert forall|d: usize| #[trigger] a.contains(d) <==> b.contains(d) by {
        if a.contains(d) {
            assert(spoken_of(ds).contains(d as int));
            lemma_connected_join(ds, c as int, a[0] as int, d as int);
            lemma_connected_join(ds, b[0] as int, c as int, d as int);
        }
        if b.contains(d) {
            assert(spoken_of(ds).contains(d as int));
            lemma_connected_join(ds, c as int, b[0] as int, d as int);
            lemma_connected_join(ds, a[0] as int, c as int, d as int);
        }
    }
    lemma_same_members(a, b);
}

/// Every group of one decomposition is found in another.
proof fn lemma_found_again(
    a: Seq<Component>,
    b: Seq<Component>,
    ds: Seq<Demand>,
    j: int,
) -> (k: int)
    requires
        decomposes(a, ds),
        decomposes(b, ds),
        0 <= j < a.len(),
    ensures
        0 <= k < b.len(),
        b[k].cells@ == a[j].cells@,
{
    let cells = a[j].cells@;
    let c = cells[0];
    assert(is_group(cells, ds));
    assert(cells.contains(c));
    assert(spoken_of(ds).contains(c as int));
    let k = choose|k: int| 0 <= k < b.len() && (#[trigger] b[k]).cells@.contains(c);
    assert(is_group(b[k].cells@, ds));
    lemma_groups_that_meet(cells, b[k].cells@, ds, c);
    k
}

proof fn lemma_same_groups(a: Seq<Component>, b: Seq<Component>, ds: Seq<Demand>, j: int)
    requires
        decomposes(a, ds),
        decomposes(b, ds),
        0 <= j < a.len(),
    ensures
        j < b.len(),
        a[j].cells@ == b[j].cells@,
    decreases j,
{
    let k = lemma_found_again(a, b, ds, j);
    if k < j {
        lemma_same_groups(a, b, ds, k);
        assert(a[k].cells@[0] < a[j].cells@[0]);
    } else if k > j {
        let m = lemma_found_again(b, a, ds, j);
        if m < j {
            lemma_same_groups(a, b, ds, m);
            assert(b[m].cells@[0] < b[j].cells@[0]);
        } else if m > j {
            assert(b[j].cells@[0] < b[k].cells@[0]);
            assert(a[j].cells@[0] < a[m].cells@[0]);
        }
    }
}

/// Numbers have one decomposition: the same groups, in the same order, with the same
/// numbers.
pub proof fn law_there_is_one_decomposition(a: Seq<Component>, b: Seq<Component>, ds: Seq<Demand>)
    requires
        decomposes(a, ds),
        decomposes(b, ds),
    ensures
        a.len() == b.len(),
        forall|j: int|
            0 <= j < a.len() ==> (#[trigger] a[j]).cells@ == b[j].cells@ && layouts::demands(
                a[j].constraints@,
            ) == layouts::demands(b[j].constraints@),
{
    if a.len() > 0 {
        lemma_same_groups(a, b, ds, a.len() - 1);
    }
    if b.len() > 0 {
        lemma_same_groups(b, a, ds, b.len() - 1);
    }
    assert forall|j: int| 0 <= j < a.len() implies (#[trigger] a[j]).cells@ == b[j].cells@
        && layouts::demands(a[j].constraints@) == layouts::demands(b[j].constraints@) by {
        lemma_same_groups(a, b, ds, j);
        assert(layouts::demands(b[j].constraints@) == rebased(ds, b[j].cells@, ds.len() as int));
    }
}

} // verus!
