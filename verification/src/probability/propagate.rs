//! Constraint propagation: what local rules alone can settle.
//!
//! Four rules are applied until nothing changes. A number whose mines are all
//! known makes its other cells safe; one that needs every cell it has left makes
//! them mines; and the number of mines on the board is read in the same two ways.
//! This is cheap, and it is incomplete: a cell can be certain although no rule
//! shows it. What it says is always right, though.

use vstd::prelude::*;
use vstd::set_lib::*;
use crate::layouts;
use crate::layouts::Demand;
use crate::probability::slices;

verus! {

/// What is settled so far.
#[verifier::ext_equal]
pub struct Known {
    pub mines: Set<int>,
    pub safe: Set<int>,
}

impl Known {
    /// The settled cells.
    pub open spec fn settled(self) -> Set<int> {
        self.mines.union(self.safe)
    }

    /// Settled cells lie below `n`, and none is both a mine and safe.
    pub open spec fn proper(self, n: nat) -> bool {
        &&& self.settled().subset_of(layouts::first_cells(n))
        &&& self.mines.disjoint(self.safe)
    }

    /// The cells below `n` that are not settled.
    pub open spec fn open(self, n: nat) -> Set<int> {
        layouts::first_cells(n).difference(self.settled())
    }
}

/// Nothing is settled.
pub open spec fn nothing_known() -> Known {
    Known { mines: Set::empty(), safe: Set::empty() }
}

/// `a - b`, or zero.
pub open spec fn less(a: nat, b: nat) -> nat {
    if a >= b {
        (a - b) as nat
    } else {
        0
    }
}

/// What one number settles.
pub open spec fn by_number(demand: Demand, known: Known) -> Known {
    let missing = less(demand.mines, layouts::mines_among(demand.cells, known.mines));
    let open = slices::outside(demand.cells, known.settled());
    if missing == 0 {
        Known { mines: known.mines, safe: known.safe.union(layouts::cell_set(open)) }
    } else if missing == open.len() {
        Known { mines: known.mines.union(layouts::cell_set(open)), safe: known.safe }
    } else {
        known
    }
}

/// What the first `i` numbers settle, one after the other.
pub open spec fn by_numbers(ds: Seq<Demand>, i: int, known: Known) -> Known
    decreases i,
{
    if i <= 0 {
        known
    } else {
        by_number(ds[i - 1], by_numbers(ds, i - 1, known))
    }
}

/// What the number of mines on the board settles.
pub open spec fn by_total(n: nat, total: nat, known: Known) -> Known {
    let missing = less(total, known.mines.len());
    let open = known.open(n);
    if missing == 0 {
        Known { mines: known.mines, safe: known.safe.union(open) }
    } else if missing == open.len() {
        Known { mines: known.mines.union(open), safe: known.safe }
    } else {
        known
    }
}

/// One round: every number in turn, and the total.
pub open spec fn round(n: nat, ds: Seq<Demand>, total: nat, known: Known) -> Known {
    by_total(n, total, by_numbers(ds, ds.len() as int, known))
}

/// What `k` rounds settle.
pub open spec fn rounds(n: nat, ds: Seq<Demand>, total: nat, k: nat) -> Known
    decreases k,
{
    if k == 0 {
        nothing_known()
    } else {
        round(n, ds, total, rounds(n, ds, total, (k - 1) as nat))
    }
}

/// What propagation settles in the end. A round that changes anything settles a
/// cell, so there is nothing left to find after `n` of them.
pub open spec fn propagated(n: nat, ds: Seq<Demand>, total: nat) -> Known {
    rounds(n, ds, total, n)
}

/// Whether every number speaks about distinct cells below `n`.
pub open spec fn proper_demands(ds: Seq<Demand>, n: nat) -> bool {
    forall|i: int| 0 <= i < ds.len() ==> layouts::distinct_below((#[trigger] ds[i]).cells, n)
}

// ---------------------------------------------------------------------------
// Rounds only ever add
// ---------------------------------------------------------------------------

/// Everything settled in `a` is settled alike in `b`.
pub open spec fn grows(a: Known, b: Known) -> bool {
    a.mines.subset_of(b.mines) && a.safe.subset_of(b.safe)
}

proof fn lemma_by_number(demand: Demand, n: nat, known: Known)
    requires
        known.proper(n),
        layouts::distinct_below(demand.cells, n),
    ensures
        by_number(demand, known).proper(n),
        grows(known, by_number(demand, known)),
{
    let open = slices::outside(demand.cells, known.settled());
    slices::lemma_outside(demand.cells, known.settled(), n);
    layouts::lemma_cell_set_len(open, n);
    let next = by_number(demand, known);
    assert(next.mines.disjoint(next.safe)) by {
        assert forall|c: int| !(next.mines.contains(c) && next.safe.contains(c)) by {
            assert(!(layouts::cell_set(open).contains(c) && known.settled().contains(c)));
        }
    }
}

proof fn lemma_by_numbers(ds: Seq<Demand>, i: int, n: nat, known: Known)
    requires
        known.proper(n),
        proper_demands(ds, n),
        0 <= i <= ds.len(),
    ensures
        by_numbers(ds, i, known).proper(n),
        grows(known, by_numbers(ds, i, known)),
    decreases i,
{
    if i > 0 {
        lemma_by_numbers(ds, i - 1, n, known);
        lemma_by_number(ds[i - 1], n, by_numbers(ds, i - 1, known));
    }
}

proof fn lemma_round(n: nat, ds: Seq<Demand>, total: nat, known: Known)
    requires
        known.proper(n),
        proper_demands(ds, n),
    ensures
        round(n, ds, total, known).proper(n),
        grows(known, round(n, ds, total, known)),
{
    lemma_by_numbers(ds, ds.len() as int, n, known);
}

/// What any number of rounds settles is proper.
pub proof fn lemma_rounds(n: nat, ds: Seq<Demand>, total: nat, k: nat)
    requires
        proper_demands(ds, n),
    ensures
        rounds(n, ds, total, k).proper(n),
    decreases k,
{
    if k > 0 {
        lemma_rounds(n, ds, total, (k - 1) as nat);
        lemma_round(n, ds, total, rounds(n, ds, total, (k - 1) as nat));
    }
}

/// Once a round changes nothing, no later one does.
proof fn lemma_stable(n: nat, ds: Seq<Demand>, total: nat, k: nat, m: nat)
    requires
        k <= m,
        round(n, ds, total, rounds(n, ds, total, k)) == rounds(n, ds, total, k),
    ensures
        rounds(n, ds, total, m) == rounds(n, ds, total, k),
    decreases m,
{
    if m > k {
        lemma_stable(n, ds, total, k, (m - 1) as nat);
    }
}

proof fn lemma_settled_finite(n: nat, known: Known)
    requires
        known.proper(n),
    ensures
        known.settled().finite(),
        known.mines.finite(),
        known.safe.finite(),
        known.settled().len() <= n,
        known.open(n).finite(),
        known.open(n).len() == n - known.settled().len(),
{
    layouts::lemma_first_cells(n);
    lemma_set_subset_finite(layouts::first_cells(n), known.settled());
    lemma_set_subset_finite(known.settled(), known.mines);
    lemma_set_subset_finite(known.settled(), known.safe);
    lemma_len_subset(known.settled(), layouts::first_cells(n));
    lemma_set_subset_finite(layouts::first_cells(n), known.open(n));
    assert(known.open(n).disjoint(known.settled()));
    lemma_set_disjoint_lens(known.open(n), known.settled());
    assert(known.open(n).union(known.settled()) =~= layouts::first_cells(n));
}

/// A round that changes something settles one more cell at least.
proof fn lemma_round_settles(n: nat, ds: Seq<Demand>, total: nat, known: Known)
    requires
        known.proper(n),
        proper_demands(ds, n),
        round(n, ds, total, known) != known,
    ensures
        round(n, ds, total, known).settled().len() > known.settled().len(),
{
    let next = round(n, ds, total, known);
    lemma_round(n, ds, total, known);
    lemma_settled_finite(n, known);
    lemma_settled_finite(n, next);
    assert(known.settled().subset_of(next.settled()));
    if forall|c: int| next.settled().contains(c) ==> known.settled().contains(c) {
        assert(next.mines =~= known.mines) by {
            assert forall|c: int| next.mines.contains(c) implies known.mines.contains(c) by {
                assert(next.settled().contains(c));
            }
        }
        assert(next.safe =~= known.safe) by {
            assert forall|c: int| next.safe.contains(c) implies known.safe.contains(c) by {
                assert(next.settled().contains(c));
            }
        }
        assert(next =~= known);
    }
    let c = choose|c: int| next.settled().contains(c) && !known.settled().contains(c);
    assert(next.settled().remove(c).len() == next.settled().len() - 1);
    assert(known.settled().subset_of(next.settled().remove(c)));
    lemma_len_subset(known.settled(), next.settled().remove(c));
}

/// Propagation ends: after `n` rounds, another one changes nothing.
pub proof fn law_propagation_reaches_a_fixpoint(n: nat, ds: Seq<Demand>, total: nat)
    requires
        proper_demands(ds, n),
    ensures
        round(n, ds, total, propagated(n, ds, total)) == propagated(n, ds, total),
        propagated(n, ds, total).proper(n),
{
    lemma_rounds(n, ds, total, n);
    lemma_stable_or_long(n, ds, total, n);
    let known = rounds(n, ds, total, n);
    if round(n, ds, total, known) != known {
        lemma_round_settles(n, ds, total, known);
        lemma_round(n, ds, total, known);
        lemma_settled_finite(n, round(n, ds, total, known));
    }
}

/// After `k` rounds either nothing changes any more or `k` cells are settled.
proof fn lemma_stable_or_long(n: nat, ds: Seq<Demand>, total: nat, k: nat)
    requires
        proper_demands(ds, n),
    ensures
        round(n, ds, total, rounds(n, ds, total, k)) == rounds(n, ds, total, k) || rounds(
            n,
            ds,
            total,
            k,
        ).settled().len() >= k,
    decreases k,
{
    if k > 0 {
        let j = (k - 1) as nat;
        lemma_stable_or_long(n, ds, total, j);
        lemma_rounds(n, ds, total, j);
        let known = rounds(n, ds, total, j);
        if round(n, ds, total, known) != known {
            lemma_round_settles(n, ds, total, known);
        }
    }
}

// ---------------------------------------------------------------------------
// What propagation says is right
// ---------------------------------------------------------------------------

/// The layouts of `n` cells with `total` mines that agree with every number.
pub open spec fn problem(n: nat, ds: Seq<Demand>, total: nat) -> Set<Set<int>> {
    layouts::with_mines(layouts::layouts_over(layouts::first_cells(n), ds), total)
}

/// Whether what is settled is so in a layout.
pub open spec fn right_about(known: Known, layout: Set<int>) -> bool {
    known.mines.subset_of(layout) && known.safe.disjoint(layout)
}

proof fn lemma_by_number_right(demand: Demand, n: nat, known: Known, layout: Set<int>)
    requires
        known.proper(n),
        layouts::distinct_below(demand.cells, n),
        layouts::met(demand, layout),
        right_about(known, layout),
    ensures
        right_about(by_number(demand, known), layout),
{
    let cells = demand.cells;
    let settled = known.settled();
    let open = slices::outside(cells, settled);
    slices::lemma_outside(cells, settled, n);
    slices::lemma_outside_counts(cells, settled, layout);
    assert(layout.intersect(settled) =~= known.mines);
    let missing = less(demand.mines, layouts::mines_among(cells, known.mines));
    assert(layouts::mines_among(open, layout) == missing);
    if missing == 0 {
        layouts::lemma_mines_among_none(open, layout);
        assert forall|c: int| layouts::cell_set(open).contains(c) implies !layout.contains(c) by {
            let i = choose|i: int| 0 <= i < open.len() && #[trigger] open[i] == c;
            assert(!layout.contains(open[i] as int));
        }
    } else if missing == open.len() {
        assert forall|c: int| layouts::cell_set(open).contains(c) implies layout.contains(c) by {
            let i = choose|i: int| 0 <= i < open.len() && #[trigger] open[i] == c;
            if !layout.contains(c) {
                let all = layouts::cell_set(open).union(layout);
                layouts::lemma_mines_among_strict(open, layout, all, i);
                layouts::lemma_mines_among_bound(open, all);
            }
        }
    }
}

proof fn lemma_by_numbers_right(ds: Seq<Demand>, i: int, n: nat, known: Known, layout: Set<int>)
    requires
        known.proper(n),
        proper_demands(ds, n),
        0 <= i <= ds.len(),
        layouts::all_met(ds, layout),
        right_about(known, layout),
    ensures
        right_about(by_numbers(ds, i, known), layout),
    decreases i,
{
    if i > 0 {
        lemma_by_numbers_right(ds, i - 1, n, known, layout);
        lemma_by_numbers(ds, i - 1, n, known);
        assert(layouts::met(ds[i - 1], layout));
        lemma_by_number_right(ds[i - 1], n, by_numbers(ds, i - 1, known), layout);
    }
}

proof fn lemma_by_total_right(n: nat, total: nat, known: Known, layout: Set<int>)
    requires
        known.proper(n),
        layout.subset_of(layouts::first_cells(n)),
        layout.len() == total,
        right_about(known, layout),
    ensures
        right_about(by_total(n, total, known), layout),
{
    lemma_settled_finite(n, known);
    layouts::lemma_first_cells(n);
    lemma_set_subset_finite(layouts::first_cells(n), layout);
    let open = known.open(n);
    let rest = layout.difference(known.mines);
    assert(rest.disjoint(known.mines));
    lemma_set_subset_finite(layout, rest);
    lemma_set_disjoint_lens(rest, known.mines);
    assert(rest.union(known.mines) =~= layout);
    assert(rest.subset_of(open)) by {
        assert forall|c: int| rest.contains(c) implies open.contains(c) by {
            assert(!known.safe.contains(c));
        }
    }
    let missing = less(total, known.mines.len());
    assert(rest.len() == missing);
    if missing == 0 {
        assert(rest =~= Set::<int>::empty());
        assert forall|c: int| open.contains(c) implies !layout.contains(c) by {
            if layout.contains(c) {
                assert(rest.contains(c));
            }
        }
    } else if missing == open.len() {
        lemma_subset_equality(rest, open);
    }
}

/// Where all numbers together settle nothing, none of them does.
proof fn lemma_no_number_settles(ds: Seq<Demand>, n: nat, known: Known, i: int)
    requires
        known.proper(n),
        proper_demands(ds, n),
        0 <= i <= ds.len(),
        grows(by_numbers(ds, ds.len() as int, known), known),
    ensures
        by_numbers(ds, i, known) == known,
    decreases ds.len() - i,
{
    let now = by_numbers(ds, i, known);
    lemma_by_numbers(ds, i, n, known);
    if i < ds.len() {
        lemma_no_number_settles(ds, n, known, i + 1);
        lemma_by_number(ds[i], n, now);
    }
    assert(now.mines =~= known.mines);
    assert(now.safe =~= known.safe);
}

/// Propagation leaves nothing that a rule could settle: a number with cells left over
/// needs some of them as mines, and not all; and so does the board.
pub proof fn law_propagation_leaves_open_questions(n: nat, ds: Seq<Demand>, total: nat)
    requires
        proper_demands(ds, n),
    ensures
        ({
            let known = propagated(n, ds, total);
            &&& forall|i: int|
                0 <= i < ds.len() ==> {
                    let open = slices::outside((#[trigger] ds[i]).cells, known.settled());
                    let missing = less(ds[i].mines, layouts::mines_among(ds[i].cells, known.mines));
                    open.len() > 0 ==> 0 != missing && missing != open.len()
                }
            &&& known.open(n).len() > 0 ==> {
                let missing = less(total, known.mines.len());
                0 != missing && missing != known.open(n).len()
            }
        }),
{
    let known = propagated(n, ds, total);
    law_propagation_reaches_a_fixpoint(n, ds, total);
    let after = by_numbers(ds, ds.len() as int, known);
    lemma_by_numbers(ds, ds.len() as int, n, known);
    assert(grows(after, by_total(n, total, after)));
    lemma_no_number_settles(ds, n, known, ds.len() as int);
    assert(by_total(n, total, known) == known);
    assert forall|i: int| 0 <= i < ds.len() implies {
        let open = slices::outside((#[trigger] ds[i]).cells, known.settled());
        let missing = less(ds[i].mines, layouts::mines_among(ds[i].cells, known.mines));
        open.len() > 0 ==> 0 != missing && missing != open.len()
    } by {
        let open = slices::outside(ds[i].cells, known.settled());
        lemma_no_number_settles(ds, n, known, i);
        lemma_no_number_settles(ds, n, known, i + 1);
        assert(by_number(ds[i], known) == known);
        if open.len() > 0 {
            slices::lemma_outside(ds[i].cells, known.settled(), n);
            let c = open[0] as int;
            assert(layouts::cell_set(open).contains(c));
            assert(!known.settled().contains(c));
            assert(known.safe.union(layouts::cell_set(open)).contains(c));
            assert(known.mines.union(layouts::cell_set(open)).contains(c));
        }
    }
    let open = known.open(n);
    if open.len() > 0 {
        lemma_settled_finite(n, known);
        layouts::lemma_first_cells(n);
        lemma_set_subset_finite(layouts::first_cells(n), open);
        let c = open.choose();
        assert(open.contains(c));
        assert(!known.settled().contains(c));
        assert(known.safe.union(open).contains(c));
        assert(known.mines.union(open).contains(c));
    }
}

/// Propagation is never wrong: a cell it calls a mine is one in every layout that
/// agrees with the numbers and the total, and a cell it calls safe is one in none.
pub proof fn law_propagation_is_never_wrong(
    n: nat,
    ds: Seq<Demand>,
    total: nat,
    layout: Set<int>,
)
    requires
        proper_demands(ds, n),
        problem(n, ds, total).contains(layout),
    ensures
        right_about(propagated(n, ds, total), layout),
{
    lemma_rounds_right(n, ds, total, n, layout);
}

proof fn lemma_rounds_right(n: nat, ds: Seq<Demand>, total: nat, k: nat, layout: Set<int>)
    requires
        proper_demands(ds, n),
        problem(n, ds, total).contains(layout),
    ensures
        right_about(rounds(n, ds, total, k), layout),
    decreases k,
{
    if k > 0 {
        let j = (k - 1) as nat;
        lemma_rounds_right(n, ds, total, j, layout);
        lemma_rounds(n, ds, total, j);
        let known = rounds(n, ds, total, j);
        lemma_by_numbers(ds, ds.len() as int, n, known);
        lemma_by_numbers_right(ds, ds.len() as int, n, known, layout);
        lemma_by_total_right(n, total, by_numbers(ds, ds.len() as int, known), layout);
    }
}

// ---------------------------------------------------------------------------
// The executable rules
// ---------------------------------------------------------------------------

/// The positions that are set.
pub open spec fn set_flags(flags: Seq<bool>) -> Set<int> {
    Set::new(|i: int| 0 <= i < flags.len() && flags[i])
}

/// What two rows of flags say is settled.
pub open spec fn known_by(is_mine: Seq<bool>, is_safe: Seq<bool>) -> Known {
    Known { mines: set_flags(is_mine), safe: set_flags(is_safe) }
}

/// The members of a set below `n`, ascending.
pub open spec fn listed(members: Set<int>, n: int) -> Seq<usize>
    decreases n,
{
    if n <= 0 {
        Seq::empty()
    } else {
        let front = listed(members, n - 1);
        if members.contains(n - 1) {
            front.push((n - 1) as usize)
        } else {
            front
        }
    }
}

/// A list of cells below `n` has at most `n` entries.
pub proof fn lemma_listed_len(members: Set<int>, n: int)
    requires
        n >= 0,
    ensures
        listed(members, n).len() <= n,
    decreases n,
{
    if n > 0 {
        lemma_listed_len(members, n - 1);
    }
}

/// What `listed` lists.
pub proof fn lemma_listed(members: Set<int>, n: usize)
    ensures
        layouts::cell_set(listed(members, n as int)) =~= members.intersect(
            layouts::first_cells(n as nat),
        ),
        layouts::distinct_below(listed(members, n as int), n as nat),
        forall|i: int, j: int|
            0 <= i < j < listed(members, n as int).len() ==> listed(members, n as int)[i] < listed(
                members,
                n as int,
            )[j],
    decreases n,
{
    let list = listed(members, n as int);
    let all = members.intersect(layouts::first_cells(n as nat));
    if n == 0 {
        assert(layouts::cell_set(list) =~= Set::<int>::empty());
        assert(all =~= Set::<int>::empty());
    } else {
        let m = (n - 1) as usize;
        lemma_listed(members, m);
        let front = listed(members, m as int);
        let less = members.intersect(layouts::first_cells(m as nat));
        assert(layouts::cell_set(front) =~= less);
        if members.contains(m as int) {
            slices::lemma_cell_set_push(front, m);
            assert(all =~= less.insert(m as int));
        } else {
            assert(all =~= less);
        }
    }
}

/// Sets the flag of every listed cell.
pub(crate) fn set_all(flags: &mut Vec<bool>, cells: &Vec<usize>)
    requires
        layouts::distinct_below(cells@, old(flags)@.len()),
    ensures
        final(flags)@.len() == old(flags)@.len(),
        set_flags(final(flags)@) =~= set_flags(old(flags)@).union(layouts::cell_set(cells@)),
{
    let ghost start = flags@;
    for i in 0..cells.len()
        invariant
            layouts::distinct_below(cells@, start.len()),
            flags@.len() == start.len(),
            set_flags(flags@) =~= set_flags(start).union(
                layouts::cell_set(cells@.take(i as int)),
            ),
    {
        let ghost before = flags@;
        let cell: usize = cells[i];
        flags.set(cell, true);
        proof {
            slices::lemma_cell_set_push(cells@.take(i as int), cell);
            assert(cells@.take(i as int).push(cell) =~= cells@.take(i + 1));
            assert(set_flags(flags@) =~= set_flags(before).insert(cell as int));
        }
    }
    assert(cells@.take(cells@.len() as int) =~= cells@);
}

/// Applies the two rules for one number. Says whether anything changed.
fn apply_number(
    cells: &Vec<usize>,
    required: usize,
    is_mine: &mut Vec<bool>,
    is_safe: &mut Vec<bool>,
) -> (changed: bool)
    requires
        old(is_mine)@.len() == old(is_safe)@.len(),
        layouts::distinct_below(cells@, old(is_mine)@.len()),
        known_by(old(is_mine)@, old(is_safe)@).proper(old(is_mine)@.len()),
    ensures
        final(is_mine)@.len() == old(is_mine)@.len(),
        final(is_safe)@.len() == old(is_safe)@.len(),
        known_by(final(is_mine)@, final(is_safe)@) =~= by_number(
            (Demand { cells: cells@, mines: required as nat }),
            known_by(old(is_mine)@, old(is_safe)@),
        ),
        changed <==> known_by(final(is_mine)@, final(is_safe)@) != known_by(
            old(is_mine)@,
            old(is_safe)@,
        ),
{
    let ghost n = is_mine@.len();
    let ghost known = known_by(is_mine@, is_safe@);
    let ghost settled = known.settled();
    let mut known_mines: usize = 0;
    let mut open: Vec<usize> = Vec::new();
    for i in 0..cells.len()
        invariant
            is_mine@.len() == n,
            is_safe@.len() == n,
            known == known_by(is_mine@, is_safe@),
            settled == known.settled(),
            layouts::distinct_below(cells@, n),
            known_mines <= i,
            known_mines == layouts::mines_among(cells@.take(i as int), known.mines),
            open@ == slices::outside(cells@.take(i as int), settled),
    {
        let cell: usize = cells[i];
        assert(cells@.take(i + 1).drop_last() =~= cells@.take(i as int));
        if is_mine[cell] {
            known_mines = known_mines + 1;
        } else if !is_safe[cell] {
            open.push(cell);
        }
    }
    let missing: usize = required.saturating_sub(known_mines);
    proof {
        assert(cells@.take(cells@.len() as int) =~= cells@);
        slices::lemma_outside(cells@, settled, n);
        assert(missing == less(required as nat, known_mines as nat));
        if open@.len() > 0 {
            assert(layouts::cell_set(open@).contains(open@[0] as int));
            assert(!settled.contains(open@[0] as int));
        } else {
            assert(layouts::cell_set(open@) =~= Set::<int>::empty());
        }
    }
    if missing == 0 {
        set_all(is_safe, &open);
        proof {
            assert(known_by(is_mine@, is_safe@) =~= by_number(
                Demand { cells: cells@, mines: required as nat },
                known,
            ));
            if open@.len() > 0 {
                assert(known_by(is_mine@, is_safe@).safe.contains(open@[0] as int));
                assert(!known.safe.contains(open@[0] as int));
            } else {
                assert(known_by(is_mine@, is_safe@) =~= known);
            }
        }
        open.len() > 0
    } else if missing == open.len() {
        set_all(is_mine, &open);
        proof {
            assert(known_by(is_mine@, is_safe@).mines.contains(open@[0] as int));
            assert(!known.mines.contains(open@[0] as int));
        }
        true
    } else {
        false
    }
}

/// The cells with neither flag set, ascending, and how many are known to be mines.
fn survey(is_mine: &Vec<bool>, is_safe: &Vec<bool>) -> (result: (Vec<usize>, usize))
    requires
        is_mine@.len() == is_safe@.len(),
    ensures
        result.0@ == listed(
            known_by(is_mine@, is_safe@).open(is_mine@.len()),
            is_mine@.len() as int,
        ),
        result.1 == set_flags(is_mine@).len(),
{
    let mut open: Vec<usize> = Vec::new();
    let mut mines: usize = 0;
    let n: usize = is_mine.len();
    let ghost all = known_by(is_mine@, is_safe@).open(n as nat);
    proof {
        assert(set_flags(is_mine@).intersect(layouts::first_cells(0)) =~= Set::<int>::empty());
    }
    for i in 0..n
        invariant
            n == is_mine@.len(),
            is_mine@.len() == is_safe@.len(),
            all == known_by(is_mine@, is_safe@).open(n as nat),
            open@ == listed(all, i as int),
            mines <= i,
            set_flags(is_mine@).intersect(layouts::first_cells(i as nat)).finite(),
            mines == set_flags(is_mine@).intersect(layouts::first_cells(i as nat)).len(),
    {
        let ghost before = set_flags(is_mine@).intersect(layouts::first_cells(i as nat));
        let ghost after = set_flags(is_mine@).intersect(layouts::first_cells((i + 1) as nat));
        if is_mine[i] {
            mines = mines + 1;
            assert(after =~= before.insert(i as int));
        } else {
            assert(after =~= before);
            if !is_safe[i] {
                open.push(i);
            }
        }
    }
    assert(set_flags(is_mine@).intersect(layouts::first_cells(n as nat)) =~= set_flags(is_mine@));
    (open, mines)
}

/// Applies the two rules for the number of mines on the board. Says whether
/// anything changed.
fn apply_total(total: usize, is_mine: &mut Vec<bool>, is_safe: &mut Vec<bool>) -> (changed: bool)
    requires
        old(is_mine)@.len() == old(is_safe)@.len(),
        known_by(old(is_mine)@, old(is_safe)@).proper(old(is_mine)@.len()),
    ensures
        final(is_mine)@.len() == old(is_mine)@.len(),
        final(is_safe)@.len() == old(is_safe)@.len(),
        known_by(final(is_mine)@, final(is_safe)@) =~= by_total(
            old(is_mine)@.len(),
            total as nat,
            known_by(old(is_mine)@, old(is_safe)@),
        ),
        changed <==> known_by(final(is_mine)@, final(is_safe)@) != known_by(
            old(is_mine)@,
            old(is_safe)@,
        ),
{
    let ghost n = is_mine@.len();
    let ghost known = known_by(is_mine@, is_safe@);
    let (open, mines): (Vec<usize>, usize) = survey(is_mine, is_safe);
    let missing: usize = total.saturating_sub(mines);
    proof {
        let len = is_mine.len();
        lemma_listed(known.open(n), len);
        assert(known.open(n).intersect(layouts::first_cells(n)) =~= known.open(n));
        layouts::lemma_cell_set_len(open@, n);
        if open@.len() > 0 {
            assert(layouts::cell_set(open@).contains(open@[0] as int));
        } else {
            assert(layouts::cell_set(open@) =~= Set::<int>::empty());
        }
    }
    if missing == 0 {
        set_all(is_safe, &open);
        proof {
            if open@.len() > 0 {
                assert(known_by(is_mine@, is_safe@).safe.contains(open@[0] as int));
                assert(!known.safe.contains(open@[0] as int));
            } else {
                assert(known_by(is_mine@, is_safe@) =~= known);
            }
        }
        open.len() > 0
    } else if missing == open.len() {
        set_all(is_mine, &open);
        proof {
            assert(known_by(is_mine@, is_safe@).mines.contains(open@[0] as int));
            assert(!known.mines.contains(open@[0] as int));
        }
        true
    } else {
        false
    }
}

/// Lists the positions whose flag is set.
fn list_flags(flags: &Vec<bool>) -> (list: Vec<usize>)
    ensures
        list@ == listed(set_flags(flags@), flags@.len() as int),
{
    let mut list: Vec<usize> = Vec::new();
    for i in 0..flags.len()
        invariant
            list@ == listed(set_flags(flags@), i as int),
    {
        if flags[i] {
            list.push(i);
        }
    }
    list
}

/// The numbers with their known mines subtracted.
pub open spec fn discounted(ds: Seq<Demand>, mines: Set<int>) -> Seq<Demand> {
    Seq::new(
        ds.len(),
        |i: int|
            Demand {
                cells: ds[i].cells,
                mines: less(ds[i].mines, layouts::mines_among(ds[i].cells, mines)),
            },
    )
}

/// Applies the rules until nothing changes.
///
/// Hands back the cells that must be mines, the cells that must be safe, the
/// numbers with their known mines subtracted, and how many mines are left.
pub fn propagate(n: usize, constraints: &Vec<(Vec<usize>, usize)>, mines_to_place: usize) -> (result:
    (Vec<usize>, Vec<usize>, Vec<(Vec<usize>, usize)>, usize))
    requires
        proper_demands(layouts::demands(constraints@), n as nat),
    ensures
        ({
            let ds = layouts::demands(constraints@);
            let known = propagated(n as nat, ds, mines_to_place as nat);
            &&& result.0@ == listed(known.mines, n as int)
            &&& result.1@ == listed(known.safe, n as int)
            &&& layouts::demands(result.2@) =~= discounted(ds, known.mines)
            &&& result.3 == less(mines_to_place as nat, known.mines.len())
        }),
{
    let ghost ds = layouts::demands(constraints@);
    let ghost total = mines_to_place as nat;
    let mut is_mine: Vec<bool> = Vec::new();
    let mut is_safe: Vec<bool> = Vec::new();
    for i in 0..n
        invariant
            is_mine@.len() == i,
            is_safe@.len() == i,
            forall|k: int| 0 <= k < i ==> !#[trigger] is_mine@[k],
            forall|k: int| 0 <= k < i ==> !#[trigger] is_safe@[k],
    {
        is_mine.push(false);
        is_safe.push(false);
    }
    let mut changed: bool = true;
    let ghost mut k: nat = 0;
    assert(known_by(is_mine@, is_safe@) =~= nothing_known());
    while changed
        invariant
            ds == layouts::demands(constraints@),
            total == mines_to_place as nat,
            proper_demands(ds, n as nat),
            is_mine@.len() == n,
            is_safe@.len() == n,
            known_by(is_mine@, is_safe@) == rounds(n as nat, ds, total, k),
            !changed ==> round(n as nat, ds, total, rounds(n as nat, ds, total, k)) == rounds(
                n as nat,
                ds,
                total,
                k,
            ),
        decreases known_by(is_mine@, is_safe@).open(n as nat).len() + if changed {
            1nat
        } else {
            0nat
        },
    {
        let ghost known = known_by(is_mine@, is_safe@);
        proof {
            lemma_rounds(n as nat, ds, total, k);
        }
        changed = false;
        for i in 0..constraints.len()
            invariant
                ds == layouts::demands(constraints@),
                proper_demands(ds, n as nat),
                known.proper(n as nat),
                is_mine@.len() == n,
                is_safe@.len() == n,
                known_by(is_mine@, is_safe@) == by_numbers(ds, i as int, known),
                !changed ==> known_by(is_mine@, is_safe@) == known,
                changed ==> by_numbers(ds, i as int, known) != known,
        {
            proof {
                lemma_by_numbers(ds, i as int, n as nat, known);
                assert(layouts::distinct_below(ds[i as int].cells, n as nat));
                assert(ds[i as int] =~= (Demand {
                    cells: constraints@[i as int].0@,
                    mines: constraints@[i as int].1 as nat,
                }));
                lemma_by_number(ds[i as int], n as nat, by_numbers(ds, i as int, known));
            }
            let now: bool = apply_number(
                &constraints[i].0,
                constraints[i].1,
                &mut is_mine,
                &mut is_safe,
            );
            proof {
                let before = by_numbers(ds, i as int, known);
                let after = by_numbers(ds, i + 1, known);
                assert(after == by_number(ds[i as int], before));
                if changed || now {
                    lemma_no_return(known, before, after);
                }
            }
            changed = changed || now;
        }
        let ghost middle = known_by(is_mine@, is_safe@);
        proof {
            lemma_by_numbers(ds, ds.len() as int, n as nat, known);
        }
        let now: bool = apply_total(mines_to_place, &mut is_mine, &mut is_safe);
        proof {
            let after = known_by(is_mine@, is_safe@);
            assert(after == round(n as nat, ds, total, known));
            if changed || now {
                lemma_no_return(known, middle, after);
                lemma_round_settles(n as nat, ds, total, known);
                lemma_round(n as nat, ds, total, known);
                lemma_settled_finite(n as nat, known);
                lemma_settled_finite(n as nat, after);
            }
        }
        changed = changed || now;
        proof {
            if changed {
                k = k + 1;
                assert(rounds(n as nat, ds, total, k) == round(
                    n as nat,
                    ds,
                    total,
                    rounds(n as nat, ds, total, (k - 1) as nat),
                ));
            }
        }
    }
    proof {
        lemma_rounds(n as nat, ds, total, k);
        lemma_stable_is_final(n as nat, ds, total, k);
        lemma_settled_finite(n as nat, known_by(is_mine@, is_safe@));
        let m = set_flags(is_mine@);
        assert(m.intersect(layouts::first_cells(n as nat)) =~= m);
        lemma_listed(m, n);
        layouts::lemma_cell_set_len(listed(m, n as int), n as nat);
    }
    let mines: Vec<usize> = list_flags(&is_mine);
    let safe: Vec<usize> = list_flags(&is_safe);
    let left: usize = mines_to_place.saturating_sub(mines.len());
    let mut updated: Vec<(Vec<usize>, usize)> = Vec::new();
    let ghost known = known_by(is_mine@, is_safe@);
    for i in 0..constraints.len()
        invariant
            ds == layouts::demands(constraints@),
            proper_demands(ds, n as nat),
            is_mine@.len() == n,
            known.mines == set_flags(is_mine@),
            updated@.len() == i,
            forall|j: int|
                0 <= j < i ==> (#[trigger] updated@[j]).0@ == ds[j].cells && updated@[j].1 == less(
                    ds[j].mines,
                    layouts::mines_among(ds[j].cells, known.mines),
                ),
    {
        assert(layouts::distinct_below(ds[i as int].cells, n as nat));
        let cells: &Vec<usize> = &constraints[i].0;
        let mut here: usize = 0;
        let mut copy: Vec<usize> = Vec::new();
        for j in 0..cells.len()
            invariant
                layouts::distinct_below(cells@, n as nat),
                is_mine@.len() == n,
                known.mines == set_flags(is_mine@),
                here <= j,
                here == layouts::mines_among(cells@.take(j as int), known.mines),
                copy@ == cells@.take(j as int),
        {
            let cell: usize = cells[j];
            assert(cells@.take(j + 1).drop_last() =~= cells@.take(j as int));
            if is_mine[cell] {
                here = here + 1;
            }
            copy.push(cell);
            assert(copy@ =~= cells@.take(j + 1));
        }
        assert(cells@.take(cells@.len() as int) =~= cells@);
        let required: usize = constraints[i].1.saturating_sub(here);
        updated.push((copy, required));
    }
    (mines, safe, updated, left)
}

/// A chain of growing states that moves does not come back.
proof fn lemma_no_return(a: Known, b: Known, c: Known)
    requires
        grows(a, b),
        grows(b, c),
        a != b || b != c,
    ensures
        a != c,
{
    if a == c {
        assert(a =~= b);
    }
}

/// A state that a round does not change is the final one.
proof fn lemma_stable_is_final(n: nat, ds: Seq<Demand>, total: nat, k: nat)
    requires
        proper_demands(ds, n),
        round(n, ds, total, rounds(n, ds, total, k)) == rounds(n, ds, total, k),
    ensures
        rounds(n, ds, total, k) == propagated(n, ds, total),
{
    if k <= n {
        lemma_stable(n, ds, total, k, n);
    } else {
        law_propagation_reaches_a_fixpoint(n, ds, total);
        lemma_stable(n, ds, total, n, k);
    }
}

} // verus!
