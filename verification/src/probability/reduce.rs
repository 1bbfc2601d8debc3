//! Dropping the cells that propagation has settled.
//!
//! What is left is a smaller problem of the same kind: the open cells, renumbered
//! in order, the numbers with their settled cells taken out, and the mines that
//! are not yet accounted for. It has exactly as many layouts as the full problem.

use vstd::prelude::*;
use vstd::set_lib::*;
use crate::layouts;
use crate::layouts::Demand;
use crate::probability::components;
use crate::probability::propagate;
use crate::probability::propagate::Known;
use crate::probability::slices;

verus! {

/// The new number of a cell: how many open cells come before it.
pub open spec fn rank(known: Known, n: nat, c: int) -> nat {
    propagate::listed(known.open(n), c).len()
}

/// The open cells, ascending: the old number of each new one.
pub open spec fn kept(known: Known, n: nat) -> Seq<usize> {
    propagate::listed(known.open(n), n as int)
}

/// The open cells of a list, renumbered.
pub open spec fn renumbered(cells: Seq<usize>, known: Known, n: nat) -> Seq<usize> {
    let open = slices::outside(cells, known.settled());
    Seq::new(open.len(), |i: int| rank(known, n, open[i] as int) as usize)
}

/// One number over the open cells.
pub open spec fn reduced_one(demand: Demand, known: Known, n: nat) -> Demand {
    Demand {
        cells: renumbered(demand.cells, known, n),
        mines: propagate::less(demand.mines, layouts::mines_among(demand.cells, known.mines)),
    }
}

/// The first `i` numbers over the open cells, without those that have none left.
pub open spec fn reduced_upto(ds: Seq<Demand>, known: Known, n: nat, i: int) -> Seq<Demand>
    decreases i,
{
    if i <= 0 {
        Seq::empty()
    } else {
        let front = reduced_upto(ds, known, n, i - 1);
        let next = reduced_one(ds[i - 1], known, n);
        if next.cells.len() == 0 {
            front
        } else {
            front.push(next)
        }
    }
}

/// The numbers over the open cells.
pub open spec fn reduced(ds: Seq<Demand>, known: Known, n: nat) -> Seq<Demand> {
    reduced_upto(ds, known, n, ds.len() as int)
}

/// A member of a listing stands where its rank says.
pub proof fn lemma_rank(members: Set<int>, n: int, c: int)
    requires
        members.contains(c),
        0 <= c < n <= usize::MAX,
    ensures
        propagate::listed(members, c).len() < propagate::listed(members, n).len(),
        propagate::listed(members, n)[propagate::listed(members, c).len() as int] == c,
    decreases n,
{
    if c < n - 1 {
        lemma_rank(members, n - 1, c);
    }
}

/// The open cells are renumbered one to one.
pub proof fn lemma_kept(known: Known, n: usize)
    requires
        known.proper(n as nat),
    ensures
        layouts::cell_set(kept(known, n as nat)) =~= known.open(n as nat),
        layouts::distinct_below(kept(known, n as nat), n as nat),
        forall|c: int| #[trigger]
            known.open(n as nat).contains(c) ==> rank(known, n as nat, c) < kept(
                known,
                n as nat,
            ).len() && kept(known, n as nat)[rank(known, n as nat, c) as int] == c,
        forall|i: int|
            #![trigger kept(known, n as nat)[i]]
            0 <= i < kept(known, n as nat).len() ==> known.open(n as nat).contains(
                kept(known, n as nat)[i] as int,
            ) && rank(known, n as nat, kept(known, n as nat)[i] as int) == i,
        kept(known, n as nat).len() <= n,
{
    let open = known.open(n as nat);
    let list = kept(known, n as nat);
    propagate::lemma_listed(open, n);
    assert(open.intersect(layouts::first_cells(n as nat)) =~= open);
    assert forall|c: int| #[trigger] open.contains(c) implies rank(known, n as nat, c)
        < list.len() && list[rank(known, n as nat, c) as int] == c by {
        lemma_rank(open, n as int, c);
    }
    assert forall|i: int|
        #![trigger list[i]]
        0 <= i < list.len() implies open.contains(list[i] as int) && rank(
        known,
        n as nat,
        list[i] as int,
    ) == i by {
        let c = list[i] as int;
        assert(layouts::cell_set(list).contains(c));
        assert(open.contains(c));
        let r = rank(known, n as nat, c) as int;
        assert(list[r] == c);
        if r < i {
            assert(list[r] < list[i]);
        } else if i < r {
            assert(list[i] < list[r]);
        }
    }
    layouts::lemma_cell_set_len(list, n as nat);
    layouts::lemma_first_cells(n as nat);
    lemma_len_subset(layouts::cell_set(list), layouts::first_cells(n as nat));
}

/// A renumbered list holds distinct new numbers.
pub proof fn lemma_renumbered(cells: Seq<usize>, known: Known, n: usize)
    requires
        known.proper(n as nat),
        layouts::distinct_below(cells, n as nat),
    ensures
        layouts::distinct_below(
            renumbered(cells, known, n as nat),
            kept(known, n as nat).len(),
        ),
        forall|i: int|
            0 <= i < renumbered(cells, known, n as nat).len() ==> {
                &&& kept(known, n as nat)[#[trigger] renumbered(cells, known, n as nat)[i] as int]
                    == slices::outside(cells, known.settled())[i]
            },
{
    let open = slices::outside(cells, known.settled());
    let new = renumbered(cells, known, n as nat);
    let list = kept(known, n as nat);
    slices::lemma_outside(cells, known.settled(), n as nat);
    lemma_kept(known, n);
    assert forall|i: int| 0 <= i < new.len() implies list[#[trigger] new[i] as int] == open[i]
        && new[i] < list.len() by {
        assert(layouts::cell_set(open).contains(open[i] as int));
        assert(!known.settled().contains(open[i] as int));
        assert(known.open(n as nat).contains(open[i] as int));
    }
    assert forall|i: int, j: int| 0 <= i < j < new.len() implies new[i] != new[j] by {
        if new[i] == new[j] {
            assert(list[new[i] as int] == open[i]);
            assert(list[new[j] as int] == open[j]);
        }
    }
}

/// The numbers over the open cells speak about distinct open cells, and about some.
pub proof fn lemma_reduced(ds: Seq<Demand>, known: Known, n: usize, i: int)
    requires
        known.proper(n as nat),
        propagate::proper_demands(ds, n as nat),
        0 <= i <= ds.len(),
    ensures
        propagate::proper_demands(
            reduced_upto(ds, known, n as nat, i),
            kept(known, n as nat).len(),
        ),
        forall|k: int|
            0 <= k < reduced_upto(ds, known, n as nat, i).len() ==> (#[trigger] reduced_upto(
                ds,
                known,
                n as nat,
                i,
            )[k]).cells.len() > 0,
    decreases i,
{
    if i > 0 {
        lemma_reduced(ds, known, n, i - 1);
        lemma_renumbered(ds[i - 1].cells, known, n);
    }
}

/// The open part of a layout, in the new numbers.
pub open spec fn shrunk(known: Known, n: nat, layout: Set<int>) -> Set<int> {
    Set::new(
        |i: int| 0 <= i < kept(known, n).len() && layout.contains(kept(known, n)[i] as int),
    )
}

/// A layout of the open cells, with the known mines put back.
pub open spec fn grown(known: Known, n: nat, layout: Set<int>) -> Set<int> {
    known.mines.union(
        Set::new(|c: int| known.open(n).contains(c) && layout.contains(rank(known, n, c) as int)),
    )
}

/// The mines of a renumbered list are the open mines of the list.
proof fn lemma_renumbered_count(
    cells: Seq<usize>,
    known: Known,
    n: usize,
    layout: Set<int>,
)
    requires
        known.proper(n as nat),
        layouts::distinct_below(cells, n as nat),
    ensures
        layouts::mines_among(renumbered(cells, known, n as nat), shrunk(known, n as nat, layout))
            == layouts::mines_among(slices::outside(cells, known.settled()), layout),
{
    let open = slices::outside(cells, known.settled());
    let new = renumbered(cells, known, n as nat);
    lemma_renumbered(cells, known, n);
    lemma_count_map(new, open, shrunk(known, n as nat, layout), layout);
}

/// Two lists whose entries are mines alike count alike.
pub proof fn lemma_count_map(a: Seq<usize>, b: Seq<usize>, x: Set<int>, y: Set<int>)
    requires
        a.len() == b.len(),
        forall|i: int|
            0 <= i < a.len() ==> (x.contains(#[trigger] a[i] as int) <==> y.contains(b[i] as int)),
    ensures
        layouts::mines_among(a, x) == layouts::mines_among(b, y),
    decreases a.len(),
{
    if a.len() > 0 {
        let a0 = a.drop_last();
        let b0 = b.drop_last();
        assert forall|i: int| 0 <= i < a0.len() implies (x.contains(#[trigger] a0[i] as int)
            <==> y.contains(b0[i] as int)) by {
            assert(a0[i] == a[i] && b0[i] == b[i]);
        }
        lemma_count_map(a0, b0, x, y);
        assert(a.last() == a[a.len() - 1] && b.last() == b[b.len() - 1]);
    }
}

/// One number, met by a layout, is met over the open cells by the open part.
proof fn lemma_reduced_one_met(demand: Demand, known: Known, n: usize, layout: Set<int>)
    requires
        known.proper(n as nat),
        layouts::distinct_below(demand.cells, n as nat),
        propagate::right_about(known, layout),
        layouts::met(demand, layout),
    ensures
        layouts::met(reduced_one(demand, known, n as nat), shrunk(known, n as nat, layout)),
{
    slices::lemma_outside_counts(demand.cells, known.settled(), layout);
    assert(layout.intersect(known.settled()) =~= known.mines);
    lemma_renumbered_count(demand.cells, known, n, layout);
}

proof fn lemma_reduced_met(ds: Seq<Demand>, known: Known, n: usize, layout: Set<int>, i: int)
    requires
        known.proper(n as nat),
        propagate::proper_demands(ds, n as nat),
        propagate::right_about(known, layout),
        layouts::all_met(ds, layout),
        0 <= i <= ds.len(),
    ensures
        layouts::all_met(
            reduced_upto(ds, known, n as nat, i),
            shrunk(known, n as nat, layout),
        ),
    decreases i,
{
    if i > 0 {
        lemma_reduced_met(ds, known, n, layout, i - 1);
        assert(layouts::met(ds[i - 1], layout));
        lemma_reduced_one_met(ds[i - 1], known, n, layout);
    }
}

/// A reduced number is found again among the reduced ones.
proof fn lemma_reduced_holds(ds: Seq<Demand>, known: Known, n: nat, i: int, j: int)
    requires
        0 <= j < i <= ds.len(),
        reduced_one(ds[j], known, n).cells.len() > 0,
    ensures
        exists|k: int|
            0 <= k < reduced_upto(ds, known, n, i).len() && #[trigger] reduced_upto(
                ds,
                known,
                n,
                i,
            )[k] == reduced_one(ds[j], known, n),
    decreases i,
{
    let all = reduced_upto(ds, known, n, i);
    let front = reduced_upto(ds, known, n, i - 1);
    if j < i - 1 {
        lemma_reduced_holds(ds, known, n, i - 1, j);
        let k = choose|k: int|
            0 <= k < front.len() && #[trigger] front[k] == reduced_one(ds[j], known, n);
        assert(all[k] == front[k]);
    } else {
        assert(all[front.len() as int] == reduced_one(ds[j], known, n));
    }
}

/// The open part of a right layout has the mines that are not known.
proof fn lemma_shrunk_len(known: Known, n: usize, layout: Set<int>)
    requires
        known.proper(n as nat),
        layout.subset_of(layouts::first_cells(n as nat)),
        propagate::right_about(known, layout),
    ensures
        layout.len() == known.mines.len() + shrunk(known, n as nat, layout).len(),
        grown(known, n as nat, shrunk(known, n as nat, layout)) =~= layout,
{
    let list = kept(known, n as nat);
    let small = shrunk(known, n as nat, layout);
    let open = layout.intersect(known.open(n as nat));
    lemma_kept(known, n);
    layouts::lemma_first_cells(n as nat);
    lemma_set_subset_finite(layouts::first_cells(n as nat), layout);
    lemma_set_subset_finite(layout, known.mines);
    lemma_set_subset_finite(layout, open);
    assert(known.mines.disjoint(open)) by {
        assert forall|c: int| !(known.mines.contains(c) && open.contains(c)) by {
            if open.contains(c) {
                assert(!known.settled().contains(c));
            }
        }
    }
    assert(known.mines.union(open) =~= layout) by {
        assert forall|c: int| layout.contains(c) implies known.mines.union(open).contains(c) by {
            assert(!known.safe.contains(c));
        }
    }
    lemma_set_disjoint_lens(known.mines, open);
    let f = |i: int| list[i] as int;
    layouts::lemma_first_cells(list.len());
    lemma_set_subset_finite(layouts::first_cells(list.len()), small);
    assert(small.map(f) =~= open) by {
        assert forall|c: int| open.contains(c) implies small.map(f).contains(c) by {
            let r = rank(known, n as nat, c) as int;
            assert(known.open(n as nat).contains(c));
            assert(small.contains(r) && f(r) == c);
        }
        assert forall|c: int| small.map(f).contains(c) implies open.contains(c) by {
            let i = choose|i: int| small.contains(i) && f(i) == c;
            assert(known.open(n as nat).contains(list[i] as int));
        }
    }
    assert(vstd::relations::injective_on(f, small)) by {
        assert forall|a: int, b: int|
            small.contains(a) && small.contains(b) && #[trigger] f(a) == #[trigger] f(b) implies a
            == b by {
            assert(rank(known, n as nat, list[a] as int) == a);
            assert(rank(known, n as nat, list[b] as int) == b);
        }
    }
    lemma_map_size(small, open, f);
    assert(grown(known, n as nat, small) =~= layout) by {
        assert forall|c: int| grown(known, n as nat, small).contains(c) <==> layout.contains(c) by {
            if known.open(n as nat).contains(c) {
                assert(list[rank(known, n as nat, c) as int] == c);
            }
        }
    }
}

/// Growing a layout of the open cells and shrinking it again gives it back.
proof fn lemma_grown(known: Known, n: usize, small: Set<int>)
    requires
        known.proper(n as nat),
        small.subset_of(layouts::first_cells(kept(known, n as nat).len())),
    ensures
        shrunk(known, n as nat, grown(known, n as nat, small)) =~= small,
        grown(known, n as nat, small).subset_of(layouts::first_cells(n as nat)),
        propagate::right_about(known, grown(known, n as nat, small)),
{
    let list = kept(known, n as nat);
    let big = grown(known, n as nat, small);
    lemma_kept(known, n);
    assert forall|i: int| shrunk(known, n as nat, big).contains(i) <==> small.contains(i) by {
        if 0 <= i < list.len() {
            assert(known.open(n as nat).contains(list[i] as int));
            assert(!known.settled().contains(list[i] as int));
            assert(rank(known, n as nat, list[i] as int) == i);
        }
        if small.contains(i) {
            assert(layouts::first_cells(list.len()).contains(i));
        }
    }
    assert forall|c: int| big.contains(c) implies layouts::first_cells(n as nat).contains(c) by {
        if known.mines.contains(c) {
            assert(known.settled().contains(c));
        }
    }
    assert forall|c: int| !(known.safe.contains(c) && big.contains(c)) by {
        if known.safe.contains(c) {
            assert(known.settled().contains(c));
        }
    }
}

/// Where the full problem has a layout at all, a layout of the open cells grows
/// into a layout of the full problem.
proof fn lemma_grown_solves(
    n: usize,
    ds: Seq<Demand>,
    total: nat,
    witness: Set<int>,
    small: Set<int>,
)
    requires
        propagate::proper_demands(ds, n as nat),
        propagate::problem(n as nat, ds, total).contains(witness),
        ({
            let known = propagate::propagated(n as nat, ds, total);
            propagate::problem(
                kept(known, n as nat).len(),
                reduced(ds, known, n as nat),
                propagate::less(total, known.mines.len()),
            ).contains(small)
        }),
    ensures
        propagate::problem(n as nat, ds, total).contains(
            grown(propagate::propagated(n as nat, ds, total), n as nat, small),
        ),
{
    let known = propagate::propagated(n as nat, ds, total);
    let big = grown(known, n as nat, small);
    propagate::law_propagation_reaches_a_fixpoint(n as nat, ds, total);
    propagate::law_propagation_is_never_wrong(n as nat, ds, total, witness);
    lemma_grown(known, n, small);
    lemma_shrunk_len(known, n, witness);
    lemma_shrunk_len(known, n, big);
    assert(big.len() == total);
    assert forall|j: int| 0 <= j < ds.len() implies layouts::met(#[trigger] ds[j], big) by {
        let d = ds[j];
        assert(layouts::distinct_below(d.cells, n as nat));
        assert(layouts::met(d, witness));
        slices::lemma_outside_counts(d.cells, known.settled(), big);
        slices::lemma_outside_counts(d.cells, known.settled(), witness);
        assert(big.intersect(known.settled()) =~= known.mines);
        assert(witness.intersect(known.settled()) =~= known.mines);
        lemma_renumbered_count(d.cells, known, n, big);
        let one = reduced_one(d, known, n as nat);
        if one.cells.len() > 0 {
            lemma_reduced_holds(ds, known, n as nat, ds.len() as int, j);
            let all = reduced(ds, known, n as nat);
            let k = choose|k: int| 0 <= k < all.len() && #[trigger] all[k] == one;
            assert(layouts::met(all[k], small));
        } else {
            assert(slices::outside(d.cells, known.settled()).len() == 0);
        }
    }
}

/// Every number over the open cells is one of the numbers, without its settled cells.
pub proof fn lemma_reduced_from(ds: Seq<Demand>, known: Known, n: nat, i: int, k: int) -> (d: int)
    requires
        0 <= i <= ds.len(),
        0 <= k < reduced_upto(ds, known, n, i).len(),
    ensures
        0 <= d < i,
        reduced_upto(ds, known, n, i)[k] == reduced_one(ds[d], known, n),
        reduced_one(ds[d], known, n).cells.len() > 0,
    decreases i,
{
    let front = reduced_upto(ds, known, n, i - 1);
    if k < front.len() {
        lemma_reduced_from(ds, known, n, i - 1, k)
    } else {
        i - 1
    }
}

/// What is left of an ascending list ascends.
proof fn lemma_outside_ascends(cells: Seq<usize>, fixed: Set<int>)
    requires
        components::ascending(cells),
    ensures
        components::ascending(slices::outside(cells, fixed)),
        forall|i: int|
            0 <= i < slices::outside(cells, fixed).len() ==> cells.contains(
                #[trigger] slices::outside(cells, fixed)[i],
            ),
    decreases cells.len(),
{
    if cells.len() > 0 {
        let rest = cells.drop_last();
        let last = cells[cells.len() - 1];
        lemma_outside_ascends(rest, fixed);
        let front = slices::outside(rest, fixed);
        let all = slices::outside(cells, fixed);
        assert forall|i: int| 0 <= i < front.len() implies front[i] < last && cells.contains(
            #[trigger] front[i],
        ) by {
            assert(rest.contains(front[i]));
            let k = choose|k: int| 0 <= k < rest.len() && rest[k] == front[i];
            assert(cells[k] == front[i]);
        }
        assert forall|i: int| 0 <= i < all.len() implies cells.contains(#[trigger] all[i]) by {
            if i < front.len() {
                assert(all[i] == front[i]);
            } else {
                assert(cells[cells.len() - 1] == all[i]);
            }
        }
        assert forall|i: int, j: int| 0 <= i < j < all.len() implies all[i] < all[j] by {
            assert(all[i] == front[i]);
            if j < front.len() {
                assert(all[j] == front[j]);
            }
        }
    }
}

/// The new numbers of an ascending list ascend.
pub proof fn lemma_renumbered_ascends(cells: Seq<usize>, known: Known, n: usize)
    requires
        known.proper(n as nat),
        layouts::distinct_below(cells, n as nat),
        components::ascending(cells),
    ensures
        components::ascending(renumbered(cells, known, n as nat)),
{
    let open = slices::outside(cells, known.settled());
    let new = renumbered(cells, known, n as nat);
    let members = known.open(n as nat);
    lemma_outside_ascends(cells, known.settled());
    slices::lemma_outside(cells, known.settled(), n as nat);
    assert forall|i: int, j: int| 0 <= i < j < new.len() implies new[i] < new[j] by {
        let c = open[i] as int;
        let d = open[j] as int;
        assert(layouts::cell_set(open).contains(c));
        assert(c < d < n);
        assert(members.contains(c));
        lemma_rank(members, d, c);
        propagate::lemma_listed_len(members, d);
    }
}

/// Taking out the settled cells loses nothing: where the full problem has a layout
/// at all, the smaller one has as many layouts, and each open cell is a mine in as
/// many of them.
pub proof fn law_reduction_keeps_the_layouts(n: usize, ds: Seq<Demand>, total: nat)
    requires
        propagate::proper_demands(ds, n as nat),
        exists|layout: Set<int>| #[trigger]
            propagate::problem(n as nat, ds, total).contains(layout),
    ensures
        ({
            let known = propagate::propagated(n as nat, ds, total);
            let full = propagate::problem(n as nat, ds, total);
            let list = kept(known, n as nat);
            let small = propagate::problem(
                list.len(),
                reduced(ds, known, n as nat),
                propagate::less(total, known.mines.len()),
            );
            &&& full.len() == small.len()
            &&& full.len() > 0
            &&& known.mines.len() <= total
            &&& forall|i: int|
                0 <= i < list.len() ==> layouts::holding(full, #[trigger] list[i] as int).len()
                    == layouts::holding(small, i).len()
            &&& forall|c: int| #[trigger]
                known.mines.contains(c) ==> layouts::holding(full, c) =~= full
            &&& forall|c: int| #[trigger]
                known.safe.contains(c) ==> layouts::holding(full, c) =~= Set::<Set<int>>::empty()
        }),
{
    let known = propagate::propagated(n as nat, ds, total);
    let full = propagate::problem(n as nat, ds, total);
    let list = kept(known, n as nat);
    let less = propagate::less(total, known.mines.len());
    let small = propagate::problem(list.len(), reduced(ds, known, n as nat), less);
    let witness = choose|layout: Set<int>| #[trigger]
        propagate::problem(n as nat, ds, total).contains(layout);
    let f = |m: Set<int>| shrunk(known, n as nat, m);
    propagate::law_propagation_reaches_a_fixpoint(n as nat, ds, total);
    layouts::lemma_first_cells(n as nat);
    layouts::lemma_layouts_finite(layouts::first_cells(n as nat), ds);
    lemma_set_subset_finite(layouts::layouts_over(layouts::first_cells(n as nat), ds), full);
    assert forall|m: Set<int>| #[trigger] full.contains(m) implies {
        &&& propagate::right_about(known, m)
        &&& small.contains(f(m))
        &&& grown(known, n as nat, f(m)) == m
        &&& known.mines.len() <= total
    } by {
        propagate::law_propagation_is_never_wrong(n as nat, ds, total, m);
        lemma_shrunk_len(known, n, m);
        lemma_reduced_met(ds, known, n, m, ds.len() as int);
    }
    assert forall|s: Set<int>| #[trigger] small.contains(s) implies full.contains(
        grown(known, n as nat, s),
    ) && f(grown(known, n as nat, s)) == s by {
        lemma_grown_solves(n, ds, total, witness, s);
        lemma_grown(known, n, s);
    }
    assert(full.contains(witness));
    lemma_onto(full, small, known, n as nat);
    assert(full.len() > 0) by {
        if full.len() == 0 {
            assert(full =~= Set::<Set<int>>::empty());
        }
    }
    assert forall|i: int| 0 <= i < list.len() implies layouts::holding(
        full,
        #[trigger] list[i] as int,
    ).len() == layouts::holding(small, i).len() by {
        let c = list[i] as int;
        let x = layouts::holding(full, c);
        let y = layouts::holding(small, i);
        lemma_set_subset_finite(full, x);
        assert forall|m: Set<int>| #[trigger] x.contains(m) implies y.contains(f(m)) && grown(
            known,
            n as nat,
            f(m),
        ) == m by {
            assert(full.contains(m));
        }
        assert forall|s: Set<int>| #[trigger] y.contains(s) implies x.contains(
            grown(known, n as nat, s),
        ) && f(grown(known, n as nat, s)) == s by {
            assert(small.contains(s));
            let g = grown(known, n as nat, s);
            assert(f(g).contains(i));
        }
        lemma_onto(x, y, known, n as nat);
    }
    assert forall|c: int| #[trigger] known.mines.contains(c) implies layouts::holding(full, c)
        =~= full by {
        assert forall|m: Set<int>| full.contains(m) implies #[trigger] layouts::holding(
            full,
            c,
        ).contains(m) by {}
    }
}

/// Two families that shrinking and growing carry into each other are equally large.
proof fn lemma_onto(x: Set<Set<int>>, y: Set<Set<int>>, known: Known, n: nat)
    requires
        x.finite(),
        forall|m: Set<int>| #[trigger]
            x.contains(m) ==> y.contains(shrunk(known, n, m)) && grown(
                known,
                n,
                shrunk(known, n, m),
            ) == m,
        forall|s: Set<int>| #[trigger]
            y.contains(s) ==> x.contains(grown(known, n, s)) && shrunk(
                known,
                n,
                grown(known, n, s),
            ) == s,
    ensures
        x.len() == y.len(),
        y.finite(),
{
    let f = |m: Set<int>| shrunk(known, n, m);
    assert(x.map(f) =~= y) by {
        assert forall|s: Set<int>| y.contains(s) implies x.map(f).contains(s) by {
            let g = grown(known, n, s);
            assert(x.contains(g) && f(g) == s);
        }
    }
    assert(vstd::relations::injective_on(f, x)) by {
        assert forall|a: Set<int>, b: Set<int>|
            x.contains(a) && x.contains(b) && #[trigger] f(a) == #[trigger] f(b) implies a == b by {
            assert(grown(known, n, f(a)) == a);
            assert(grown(known, n, f(b)) == b);
        }
    }
    lemma_map_size(x, y, f);
}

} // verus!
