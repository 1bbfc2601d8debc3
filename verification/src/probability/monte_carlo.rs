//! Sampled mine probabilities, or an exhaustive count where few layouts exist.
//!
//! Sampling draws mines for the border only, the cells that numbers speak about.
//! Each sample that agrees with every number stands for as many whole layouts as there
//! are ways of placing the mines left over in the interior. It counts with that number,
//! times the number of border layouts among which it was drawn.

use vstd::prelude::*;
use vstd::set_lib::*;
use crate::big_nat::BigNat;
use crate::board;
use crate::board::Minesweeper;
use crate::chance;
use crate::chance::{Dice, Roll};
use crate::capped;
use crate::combos;
use crate::counting;
pub use crate::counting::combinations;
use crate::layouts;
use crate::probability::combine;
use crate::probability::components;
use crate::probability::estimate;
use crate::probability::estimate::Estimate;
use crate::probability::groups;
use crate::probability::propagate;
use crate::probability::setup;
use crate::probability::setup::SimSetup;
use crate::probability::slices;
use crate::probability::{ProbabilityStrategy, SimUpdate, Strategy};

verus! {

/// The sampling estimator.
pub struct MonteCarlo {
    /// Samples that agree with the numbers to stop after; also the most layouts to
    /// count one by one.
    pub max_valid: usize,
    /// Samples to draw at most.
    pub max_attempts: usize,
}

impl MonteCarlo {
    /// The default limits.
    pub fn new() -> (strategy: Self)
        ensures
            strategy.max_valid == 10_000,
            strategy.max_attempts == 1_000_000,
    {
        Self { max_valid: 10_000, max_attempts: 1_000_000 }
    }
}

// ---------------------------------------------------------------------------
// Checking a layout
// ---------------------------------------------------------------------------

/// Marks the listed cells.
fn mark(n: usize, cells: &Vec<usize>) -> (flags: Vec<bool>)
    requires
        layouts::distinct_below(cells@, n as nat),
    ensures
        flags@.len() == n,
        propagate::set_flags(flags@) =~= layouts::cell_set(cells@),
{
    let mut flags: Vec<bool> = Vec::new();
    for i in 0..n
        invariant
            flags@.len() == i,
            forall|k: int| 0 <= k < i ==> !#[trigger] flags@[k],
    {
        flags.push(false);
    }
    assert(propagate::set_flags(flags@) =~= Set::<int>::empty());
    propagate::set_all(&mut flags, cells);
    flags
}

/// Whether a layout agrees with every number.
fn agrees(constraints: &Vec<(Vec<usize>, usize)>, is_mine: &Vec<bool>) -> (valid: bool)
    requires
        propagate::proper_demands(layouts::demands(constraints@), is_mine@.len()),
    ensures
        valid == layouts::all_met(
            layouts::demands(constraints@),
            propagate::set_flags(is_mine@),
        ),
{
    let ghost ds = layouts::demands(constraints@);
    let ghost mines = propagate::set_flags(is_mine@);
    for i in 0..constraints.len()
        invariant
            ds == layouts::demands(constraints@),
            mines == propagate::set_flags(is_mine@),
            propagate::proper_demands(ds, is_mine@.len()),
            forall|k: int| 0 <= k < i ==> layouts::met(#[trigger] ds[k], mines),
    {
        let cells: &Vec<usize> = &constraints[i].0;
        assert(layouts::distinct_below(ds[i as int].cells, is_mine@.len()));
        let mut count: usize = 0;
        for j in 0..cells.len()
            invariant
                layouts::distinct_below(cells@, is_mine@.len()),
                mines == propagate::set_flags(is_mine@),
                count <= j,
                count == layouts::mines_among(cells@.take(j as int), mines),
        {
            assert(cells@.take(j + 1).drop_last() =~= cells@.take(j as int));
            if is_mine[cells[j]] {
                count = count + 1;
            }
        }
        assert(cells@.take(cells@.len() as int) =~= cells@);
        if count != constraints[i].1 {
            assert(!layouts::met(ds[i as int], mines));
            return false;
        }
    }
    true
}

// ---------------------------------------------------------------------------
// Counting every layout
// ---------------------------------------------------------------------------

/// A walk over every way of placing the mines, in lexicographic order.
pub struct Enumeration {
    /// The cells of the layout at hand, ascending.
    pub combo: Vec<usize>,
    /// `counts[i]`: layouts found in which cell `i` is a mine.
    pub counts: Vec<u64>,
    /// Layouts found that agree with the numbers.
    pub valid: usize,
    /// Layouts looked at.
    pub steps: usize,
    /// Whether every layout has been looked at.
    pub done: bool,
}

/// The cells `0..n`, as a list.
pub open spec fn all_cells(n: nat) -> Seq<usize> {
    Seq::new(n, |i: int| i as usize)
}

/// Every way of placing the mines of a problem.
pub open spec fn placements(setup: SimSetup) -> Set<Set<int>> {
    layouts::with_mines(
        layouts::subsets(layouts::first_cells(setup.hidden_cells@.len())),
        setup.mines_to_place as nat,
    )
}

/// The members of a family that come before a layout in the walk.
pub open spec fn passed(family: Set<Set<int>>, n: nat, combo: Seq<usize>) -> Set<Set<int>> {
    slices::early(family, Set::empty(), Set::empty(), all_cells(n), combos::as_ints(combo))
}

impl Enumeration {
    /// Everything before the layout at hand is counted, or everything.
    pub open spec fn wf(self, setup: SimSetup) -> bool {
        let n = setup.hidden_cells@.len();
        let all = combine::setup_layouts(setup);
        &&& self.counts@.len() == n
        &&& if self.done {
            &&& self.steps == placements(setup).len()
            &&& self.valid == all.len()
            &&& forall|c: int|
                0 <= c < n ==> #[trigger] self.counts@[c] == layouts::holding(all, c).len()
        } else {
            &&& self.combo@.len() == setup.mines_to_place
            &&& self.combo@.len() <= n
            &&& combos::ascending(combos::as_ints(self.combo@), n as int)
            &&& self.steps == passed(placements(setup), n, self.combo@).len()
            &&& self.valid == passed(all, n, self.combo@).len()
            &&& forall|c: int|
                0 <= c < n ==> #[trigger] self.counts@[c] == passed(
                    layouts::holding(all, c),
                    n,
                    self.combo@,
                ).len()
        }
    }
}

/// What the walk's lemmas need of a family of placements.
proof fn lemma_walk_facts(setup: SimSetup, family: Set<Set<int>>)
    requires
        setup.hidden_cells@.len() <= usize::MAX,
        family.subset_of(placements(setup)),
    ensures
        slices::node_facts(
            family,
            Set::empty(),
            Set::empty(),
            all_cells(setup.hidden_cells@.len()),
            setup.hidden_cells@.len(),
            setup.mines_to_place as nat,
        ),
        family.finite(),
{
    let n = setup.hidden_cells@.len();
    let cells = all_cells(n);
    let k = setup.mines_to_place as nat;
    layouts::lemma_first_cells(n);
    layouts::lemma_subsets_finite(layouts::first_cells(n));
    lemma_set_subset_finite(layouts::subsets(layouts::first_cells(n)), placements(setup));
    lemma_set_subset_finite(placements(setup), family);
    let whole = slices::slice(family, Set::empty(), Set::empty());
    lemma_set_subset_finite(family, whole);
    assert(layouts::distinct_below(cells, n));
    assert forall|g: Set<int>| #[trigger] whole.contains(g) implies slices::positions(
        cells,
        g,
    ).len() == k by {
        assert(placements(setup).contains(g));
        slices::lemma_positions(cells, g);
        lemma_all_count(n, g);
    }
}

/// Counting along all cells counts all mines.
proof fn lemma_all_count(n: nat, m: Set<int>)
    requires
        n <= usize::MAX,
    ensures
        layouts::mines_among(all_cells(n), m) == m.intersect(layouts::first_cells(n)).len(),
        m.subset_of(layouts::first_cells(n)) ==> layouts::mines_among(all_cells(n), m) == m.len(),
        m.intersect(layouts::first_cells(n)).finite(),
    decreases n,
{
    let part = m.intersect(layouts::first_cells(n));
    layouts::lemma_first_cells(n);
    lemma_set_subset_finite(layouts::first_cells(n), part);
    if m.subset_of(layouts::first_cells(n)) {
        assert(part =~= m);
    }
    if n == 0 {
        assert(part =~= Set::<int>::empty());
    } else {
        let p = (n - 1) as nat;
        lemma_all_count(p, m);
        assert(all_cells(n).drop_last() =~= all_cells(p));
        assert(all_cells(n).last() == n - 1);
        let less = m.intersect(layouts::first_cells(p));
        if m.contains(n - 1) {
            assert(part =~= less.insert(n - 1));
        } else {
            assert(part =~= less);
        }
    }
}

/// The layout at hand, as a set.
proof fn lemma_at_hand(n: nat, combo: Seq<usize>)
    requires
        n <= usize::MAX,
        combos::ascending(combos::as_ints(combo), n as int),
    ensures
        slices::picked(all_cells(n), combos::as_ints(combo)) =~= layouts::cell_set(combo),
        layouts::cell_set(all_cells(n)) =~= layouts::first_cells(n),
        layouts::distinct_below(combo, n),
        layouts::cell_set(combo).len() == combo.len(),
        layouts::cell_set(combo).subset_of(layouts::first_cells(n)),
{
    let picks = combos::as_ints(combo);
    let cells = all_cells(n);
    assert forall|i: int| 0 <= i < combo.len() implies (#[trigger] combo[i]) < n by {
        assert(0 <= picks[i] < n);
    }
    assert forall|i: int, j: int| 0 <= i < j < combo.len() implies combo[i] != combo[j] by {
        assert(picks[i] < picks[j]);
    }
    assert forall|c: int| slices::picked(cells, picks).contains(c) <==> layouts::cell_set(
        combo,
    ).contains(c) by {
        if slices::picked(cells, picks).contains(c) {
            let i = choose|i: int| 0 <= i < picks.len() && #[trigger] cells[picks[i]] == c;
            assert(0 <= picks[i] < n);
            assert(combo[i] == c);
        }
        if layouts::cell_set(combo).contains(c) {
            let i = choose|i: int| 0 <= i < combo.len() && #[trigger] combo[i] == c;
            assert(0 <= picks[i] < n);
            assert(cells[picks[i]] == c);
        }
    }
    assert forall|c: int| layouts::first_cells(n).contains(c) implies layouts::cell_set(
        cells,
    ).contains(c) by {
        assert(cells[c] == c);
    }
    layouts::lemma_cell_set_len(combo, n);
}

/// Looking at one layout counts it for the families it belongs to.
proof fn lemma_look(setup: SimSetup, family: Set<Set<int>>, combo: Seq<usize>)
    requires
        setup.hidden_cells@.len() <= usize::MAX,
        family.subset_of(placements(setup)),
        combo.len() == setup.mines_to_place,
        combos::ascending(combos::as_ints(combo), setup.hidden_cells@.len() as int),
    ensures
        ({
            let n = setup.hidden_cells@.len();
            let picks = combos::as_ints(combo);
            let here = if family.contains(layouts::cell_set(combo)) {
                1nat
            } else {
                0nat
            };
            &&& combos::at_end(picks, n as int) ==> family.len() == passed(family, n, combo).len()
                + here
            &&& forall|at: int, next: Seq<usize>|
                combos::can_bump(picks, n as int, at) && #[trigger] combos::as_ints(next)
                    == #[trigger] combos::bumped(picks, at) ==> passed(family, n, next).len()
                    == passed(family, n, combo).len() + here
        }),
{
    let n = setup.hidden_cells@.len();
    let picks = combos::as_ints(combo);
    let cells = all_cells(n);
    let none = Set::<int>::empty();
    let m = layouts::cell_set(combo);
    lemma_walk_facts(setup, family);
    lemma_at_hand(n, combo);
    let wide = none.union(layouts::cell_set(cells));
    let grown = none.union(slices::picked(cells, picks));
    assert(wide =~= layouts::first_cells(n));
    assert(grown =~= m);
    let part = slices::slice(family, wide, grown);
    let only = Set::<Set<int>>::empty().insert(m);
    assert(part =~= if family.contains(m) {
        only
    } else {
        Set::empty()
    }) by {
        assert forall|g: Set<int>| part.contains(g) <==> family.contains(m) && g == m by {
            if part.contains(g) {
                assert(placements(setup).contains(g));
                assert(g.intersect(layouts::first_cells(n)) =~= g);
            }
            if family.contains(m) {
                assert(m.intersect(layouts::first_cells(n)) =~= m);
            }
        }
    }
    if combos::at_end(picks, n as int) {
        slices::lemma_early_last(family, none, none, cells, n, picks);
        assert(slices::slice(family, none, none) =~= family) by {
            assert forall|g: Set<int>| family.contains(g) implies slices::slice(
                family,
                none,
                none,
            ).contains(g) by {
                assert(g.intersect(none) =~= none);
            }
        }
    }
    assert forall|at: int, next: Seq<usize>|
        combos::can_bump(picks, n as int, at) && #[trigger] combos::as_ints(next)
            == #[trigger] combos::bumped(picks, at) implies passed(family, n, next).len()
        == passed(family, n, combo).len() + if family.contains(m) {
        1nat
    } else {
        0nat
    } by {
        slices::lemma_early_step(family, none, none, cells, n, picks, at);
    }
}

/// No more layouts have been passed than there are, counting the one at hand.
proof fn lemma_passed_bound(setup: SimSetup, family: Set<Set<int>>, combo: Seq<usize>)
    requires
        setup.hidden_cells@.len() <= usize::MAX,
        family.subset_of(placements(setup)),
        combo.len() == setup.mines_to_place,
        combos::ascending(combos::as_ints(combo), setup.hidden_cells@.len() as int),
    ensures
        passed(family, setup.hidden_cells@.len(), combo).len() <= passed(
            placements(setup),
            setup.hidden_cells@.len(),
            combo,
        ).len(),
        passed(placements(setup), setup.hidden_cells@.len(), combo).len() < placements(setup).len(),
{
    let n = setup.hidden_cells@.len();
    let cells = all_cells(n);
    let picks = combos::as_ints(combo);
    let every = placements(setup);
    lemma_walk_facts(setup, every);
    lemma_walk_facts(setup, family);
    lemma_at_hand(n, combo);
    let a = passed(family, n, combo);
    let b = passed(every, n, combo);
    lemma_set_subset_finite(every, b);
    assert(a.subset_of(b));
    lemma_len_subset(a, b);
    let m = layouts::cell_set(combo);
    assert(every.contains(m));
    assert(!b.contains(m)) by {
        if b.contains(m) {
            assert forall|j: int| 0 <= j < cells.len() implies (m.contains(#[trigger] cells[j] as int)
                <==> picks.contains(j)) by {
                if m.contains(j) {
                    let i = choose|i: int| 0 <= i < combo.len() && #[trigger] combo[i] == j;
                    assert(picks[i] == j);
                }
                if picks.contains(j) {
                    let i = choose|i: int| 0 <= i < picks.len() && picks[i] == j;
                    assert(combo[i] == j);
                }
            }
            slices::lemma_positions_unique(cells, m, picks);
            combos::lemma_strict(picks, picks);
        }
    }
    assert(b.insert(m).subset_of(every));
    lemma_len_subset(b.insert(m), every);
}

impl Enumeration {
    /// A walk about to look at the first layout. With no mines or no cells there is
    /// nothing to walk.
    pub fn start(setup: &SimSetup) -> (walk: Self)
        requires
            0 < setup.mines_to_place <= setup.hidden_cells@.len(),
        ensures
            !walk.done,
            walk.steps == 0,
            walk.wf(*setup),
    {
        let n: usize = setup.hidden_cells.len();
        let combo: Vec<usize> = combos::start_combination(setup.mines_to_place);
        let mut counts: Vec<u64> = Vec::new();
        for i in 0..n
            invariant
                counts@.len() == i,
                forall|k: int| 0 <= k < i ==> #[trigger] counts@[k] == 0,
        {
            counts.push(0);
        }
        proof {
            let k = setup.mines_to_place as nat;
            let all = combine::setup_layouts(*setup);
            let cells = all_cells(n as nat);
            let none = Set::<int>::empty();
            lemma_walk_facts(*setup, placements(*setup));
            slices::lemma_early_first(placements(*setup), none, none, cells, n as nat, k);
            lemma_walk_facts(*setup, all);
            slices::lemma_early_first(all, none, none, cells, n as nat, k);
            assert forall|c: int| 0 <= c < n implies #[trigger] counts@[c] == passed(
                layouts::holding(all, c),
                n as nat,
                combo@,
            ).len() by {
                let part = layouts::holding(all, c);
                lemma_walk_facts(*setup, part);
                slices::lemma_early_first(part, none, none, cells, n as nat, k);
            }
        }
        Enumeration { combo, counts, valid: 0, steps: 0, done: false }
    }

    /// Looks at the layout at hand and moves on to the next.
    pub fn step(&mut self, setup: &SimSetup)
        requires
            old(self).wf(*setup),
            !old(self).done,
            setup.wf(),
            placements(*setup).len() <= usize::MAX,
        ensures
            final(self).wf(*setup),
            final(self).steps == old(self).steps + 1,
            final(self).valid == old(self).valid || final(self).valid == old(self).valid + 1,
    {
        let n: usize = setup.hidden_cells.len();
        let ghost all = combine::setup_layouts(*setup);
        let ghost before = *self;
        let ghost m = layouts::cell_set(self.combo@);
        proof {
            lemma_at_hand(n as nat, self.combo@);
            lemma_passed_bound(*setup, all, self.combo@);
            lemma_look(*setup, placements(*setup), self.combo@);
            lemma_look(*setup, all, self.combo@);
            assert(placements(*setup).contains(m));
        }
        let is_mine: Vec<bool> = mark(n, &self.combo);
        if agrees(&setup.constraints, &is_mine) {
            assert(all.contains(m));
            self.valid = self.valid + 1;
            let len: usize = self.combo.len();
            for i in 0..len
                invariant
                    len == self.combo@.len(),
                    self.combo@ == before.combo@,
                    self.steps == before.steps,
                    self.done == before.done,
                    self.valid == before.valid + 1,
                    n == setup.hidden_cells@.len(),
                    all == combine::setup_layouts(*setup),
                    placements(*setup).len() <= usize::MAX,
                    before.wf(*setup),
                    !before.done,
                    layouts::distinct_below(self.combo@, n as nat),
                    self.counts@.len() == n,
                    forall|c: int|
                        0 <= c < n ==> #[trigger] self.counts@[c] == before.counts@[c]
                            + if layouts::cell_set(self.combo@.take(i as int)).contains(c) {
                            1int
                        } else {
                            0
                        },
            {
                let cell: usize = self.combo[i];
                let ghost done = self.combo@.take(i as int);
                proof {
                    lemma_passed_bound(
                        *setup,
                        layouts::holding(all, cell as int),
                        before.combo@,
                    );
                    assert(before.counts@[cell as int] < usize::MAX);
                    slices::lemma_cell_set_push(done, cell);
                    assert(done.push(cell) =~= self.combo@.take(i + 1));
                    assert(!layouts::cell_set(done).contains(cell as int)) by {
                        if layouts::cell_set(done).contains(cell as int) {
                            let j = choose|j: int|
                                0 <= j < done.len() && #[trigger] done[j] == cell as int;
                            assert(self.combo@[j] == self.combo@[i as int]);
                        }
                    }
                }
                self.counts.set(cell, self.counts[cell] + 1);
            }
            assert(self.combo@.take(self.combo@.len() as int) =~= self.combo@);
        } else {
            assert(!all.contains(m));
        }
        assert forall|c: int| 0 <= c < n implies #[trigger] self.counts@[c] == before.counts@[c]
            + if all.contains(m) && m.contains(c) {
            1int
        } else {
            0
        } by {}
        self.steps = self.steps + 1;
        let ghost looked = *self;
        let moved: bool = combos::next_combination(&mut self.combo, n);
        self.done = !moved;
        proof {
            let picks = combos::as_ints(before.combo@);
            if moved {
                let at = choose|at: int|
                    #![trigger combos::bumped(picks, at)]
                    combos::can_bump(picks, n as int, at) && combos::as_ints(self.combo@)
                        == combos::bumped(picks, at);
                combos::lemma_bumped(picks, n as int, at);
                assert(combos::as_ints(self.combo@).len() == self.combo@.len());
                assert forall|c: int| 0 <= c < n implies #[trigger] self.counts@[c] == passed(
                    layouts::holding(all, c),
                    n as nat,
                    self.combo@,
                ).len() by {
                    lemma_look(*setup, layouts::holding(all, c), before.combo@);
                    assert(looked.counts@[c] == before.counts@[c] + if all.contains(m)
                        && m.contains(c) {
                        1int
                    } else {
                        0
                    });
                }
            } else {
                assert forall|c: int| 0 <= c < n implies #[trigger] self.counts@[c]
                    == layouts::holding(all, c).len() by {
                    lemma_look(*setup, layouts::holding(all, c), before.combo@);
                    assert(looked.counts@[c] == before.counts@[c] + if all.contains(m)
                        && m.contains(c) {
                        1int
                    } else {
                        0
                    });
                }
            }
        }
    }
}

// ---------------------------------------------------------------------------
// Sampling
// ---------------------------------------------------------------------------

/// The cells that some number speaks about.
pub open spec fn border_cells(setup: SimSetup) -> Set<int> {
    components::spoken_of(layouts::demands(setup.constraints@))
}

/// How many cells no number speaks about.
pub open spec fn interior_len(setup: SimSetup) -> nat {
    combine::interior_of(setup).len()
}

/// A layout of the border that a sample can hold: it agrees with every number, and
/// the interior has room for the mines it leaves over.
pub open spec fn acceptable(setup: SimSetup, m: Set<int>) -> bool {
    &&& m.subset_of(border_cells(setup))
    &&& m.finite()
    &&& m.len() <= setup.mines_to_place
    &&& setup.mines_to_place - m.len() <= interior_len(setup)
    &&& layouts::all_met(layouts::demands(setup.constraints@), m)
}

/// The mines a layout of the border leaves over.
pub open spec fn left_over(setup: SimSetup, m: Set<int>) -> nat {
    propagate::less(setup.mines_to_place as nat, m.len())
}

/// The ways of placing the mines left over in the interior: how many whole layouts
/// have these mines on the border.
pub open spec fn completions(setup: SimSetup, m: Set<int>) -> nat {
    counting::binom(interior_len(setup), left_over(setup, m))
}

/// What a sample counts: its completions, times the number of border layouts with as
/// many mines. The number of mines is drawn first, and every such layout is then as
/// likely as the others: the more of them there are, the less often each comes up.
pub open spec fn sample_weight(setup: SimSetup, m: Set<int>) -> nat {
    counting::binom(border_cells(setup).len(), m.len()) * completions(setup, m)
}

/// The fewest and the most mines that can lie on the border.
pub open spec fn fewest_mines(setup: SimSetup) -> nat {
    propagate::less(setup.mines_to_place as nat, interior_len(setup))
}

pub open spec fn most_mines(setup: SimSetup) -> nat {
    if setup.mines_to_place < border_cells(setup).len() {
        setup.mines_to_place as nat
    } else {
        border_cells(setup).len()
    }
}

/// Whether a draw can come out with mines on these cells: cells of the border, so
/// many of them.
pub open spec fn drawn(setup: SimSetup, m: Set<int>, fewest: int, most: int) -> bool {
    &&& m.subset_of(border_cells(setup))
    &&& m.finite()
    &&& fewest <= m.len() <= most
}

/// Those of some draws that are samples, in order.
pub open spec fn kept(setup: SimSetup, draws: Seq<Set<int>>) -> Seq<Set<int>>
    decreases draws.len(),
{
    if draws.len() == 0 {
        Seq::empty()
    } else if acceptable(setup, draws.last()) {
        kept(setup, draws.drop_last()).push(draws.last())
    } else {
        kept(setup, draws.drop_last())
    }
}

/// The border's positions after the first `k` of some draws: the `i`-th draw brings one of
/// the positions from `i` on to place `i`.
pub open spec fn shuffled(order: Seq<usize>, picks: Seq<usize>, k: int) -> Seq<usize>
    decreases k,
{
    if k <= 0 {
        order
    } else {
        let before = shuffled(order, picks, k - 1);
        let j = k - 1 + picks[k - 1];
        before.update(k - 1, before[j]).update(j, before[k - 1])
    }
}

/// The cells of the border at the first `k` positions of an order.
pub open spec fn picked(border: Seq<usize>, order: Seq<usize>, k: nat) -> Set<int> {
    layouts::cell_set(Seq::new(k, |i: int| border[order[i] as int]))
}

/// What is drawn for one sample: how many mines there are, unless that is settled, and
/// then one cell after the other out of those that are left of a border of `b` cells.
pub open spec fn turn_rolls(
    fewest: nat,
    most: nat,
    b: nat,
    count: nat,
    picks: Seq<usize>,
) -> Seq<Roll> {
    if fewest == most {
        chance::rolls_of(picks, b)
    } else {
        seq![Roll { below: (most - fewest + 1) as nat, value: (count - fewest) as nat }]
            + chance::rolls_of(picks, b)
    }
}

/// What one sample took: how many mines, and the draws that chose their cells.
pub struct Turn {
    pub count: nat,
    pub picks: Seq<usize>,
}

/// Whether a sample can take this.
pub open spec fn may_take(turn: Turn, fewest: nat, most: nat, b: nat) -> bool {
    &&& fewest <= turn.count <= most
    &&& turn.picks.len() == turn.count
    &&& chance::in_range(turn.picks, b)
}

/// Everything drawn for some samples.
pub open spec fn all_rolls(fewest: nat, most: nat, b: nat, turns: Seq<Turn>) -> Seq<Roll>
    decreases turns.len(),
{
    if turns.len() == 0 {
        Seq::empty()
    } else {
        all_rolls(fewest, most, b, turns.drop_last()) + turn_rolls(
            fewest,
            most,
            b,
            turns.last().count,
            turns.last().picks,
        )
    }
}

/// The border's positions after some samples.
pub open spec fn order_after(b: nat, turns: Seq<Turn>) -> Seq<usize>
    decreases turns.len(),
{
    if turns.len() == 0 {
        Seq::new(b, |i: int| i as usize)
    } else {
        shuffled(
            order_after(b, turns.drop_last()),
            turns.last().picks,
            turns.last().picks.len() as int,
        )
    }
}

/// The cells that each of some samples puts mines on.
pub open spec fn sets_of(border: Seq<usize>, turns: Seq<Turn>) -> Seq<Set<int>>
    decreases turns.len(),
{
    if turns.len() == 0 {
        Seq::empty()
    } else {
        sets_of(border, turns.drop_last()).push(
            picked(border, order_after(border.len(), turns), turns.last().count),
        )
    }
}

/// Whether every draw is a sample: the numbers leave nothing open on the border.
pub open spec fn every_draw_fits(setup: SimSetup) -> bool {
    forall|m: Set<int>|
        drawn(setup, m, fewest_mines(setup) as int, most_mines(setup) as int)
            ==> #[trigger] acceptable(setup, m)
}

/// Everything is scaled by the size of the interior, so that shares stay whole.
pub open spec fn scale(setup: SimSetup) -> nat {
    if interior_len(setup) == 0 {
        1
    } else {
        interior_len(setup)
    }
}

/// The weight of some samples.
pub open spec fn samples_total(setup: SimSetup, samples: Seq<Set<int>>) -> nat
    decreases samples.len(),
{
    if samples.len() == 0 {
        0
    } else {
        samples_total(setup, samples.drop_last()) + sample_weight(setup, samples.last()) * scale(
            setup,
        )
    }
}

/// What one sample adds to a cell: its weight where the cell is one of its mines; to
/// a cell of the interior the share of the weight that the mines left over give it.
pub open spec fn sample_share(setup: SimSetup, m: Set<int>, c: int) -> nat {
    if border_cells(setup).contains(c) {
        if m.contains(c) {
            sample_weight(setup, m) * scale(setup)
        } else {
            0
        }
    } else {
        sample_weight(setup, m) * left_over(setup, m)
    }
}

/// What some samples add up to for a cell.
pub open spec fn samples_mines(setup: SimSetup, samples: Seq<Set<int>>, c: int) -> nat
    decreases samples.len(),
{
    if samples.len() == 0 {
        0
    } else {
        samples_mines(setup, samples.drop_last(), c) + sample_share(setup, samples.last(), c)
    }
}

/// Samples taken so far.
pub struct Sampler {
    /// The cells that numbers speak about, and the others.
    pub border: Vec<usize>,
    pub interior: Vec<usize>,
    /// `weights[k]`: ways of placing `k` mines in the interior; `spreads[k]`: on the
    /// border.
    pub weights: Vec<BigNat>,
    pub spreads: Vec<BigNat>,
    /// The positions of the border, shuffled a bit more by each sample.
    pub order: Vec<usize>,
    /// What the accepted samples add up to for each cell, and their weight.
    pub counts: Vec<BigNat>,
    pub total: BigNat,
    /// Samples accepted, and samples drawn.
    pub valid: usize,
    pub attempts: usize,
    /// The source of chance.
    pub dice: Dice,
    /// What each sample took.
    pub turns: Ghost<Seq<Turn>>,
    /// Everything drawn, and the accepted samples.
    pub draws: Ghost<Seq<Set<int>>>,
    pub accepted: Ghost<Seq<Set<int>>>,
}

impl Sampler {
    /// The sums are those of the accepted samples, and each of those agrees with the
    /// numbers.
    pub open spec fn wf(self, setup: SimSetup) -> bool {
        let n = setup.hidden_cells@.len();
        let top = if setup.mines_to_place < interior_len(setup) {
            setup.mines_to_place as nat
        } else {
            interior_len(setup)
        };
        &&& self.border@ == propagate::listed(border_cells(setup), n as int)
        &&& self.interior@ == combine::interior_of(setup)
        &&& counting::poly_wf(self.weights@)
        &&& self.weights@.len() == top + 1
        &&& forall|k: int|
            0 <= k <= top ==> (#[trigger] self.weights@[k])@ == counting::binom(
                interior_len(setup),
                k as nat,
            )
        &&& counting::poly_wf(self.spreads@)
        &&& self.spreads@.len() == most_mines(setup) + 1
        &&& forall|k: int|
            0 <= k <= most_mines(setup) ==> (#[trigger] self.spreads@[k])@ == counting::binom(
                border_cells(setup).len(),
                k as nat,
            )
        &&& self.order@.len() == self.border@.len()
        &&& layouts::distinct_below(self.order@, self.border@.len())
        &&& self.counts@.len() == n
        &&& counting::poly_wf(self.counts@)
        &&& self.total.wf()
        &&& self.total@ == samples_total(setup, self.accepted@)
        &&& forall|c: int|
            0 <= c < n ==> (#[trigger] self.counts@[c])@ == samples_mines(
                setup,
                self.accepted@,
                c,
            )
        &&& self.valid == self.accepted@.len()
        &&& self.attempts == self.draws@.len()
        &&& self.valid <= self.attempts
        &&& self.accepted@ == kept(setup, self.draws@)
        &&& forall|i: int|
            0 <= i < self.accepted@.len() ==> acceptable(setup, #[trigger] self.accepted@[i])
    }

    /// Everything that was drawn came out of the dice: the numbers of mines and the cells
    /// are what the rolls say, and nothing was rolled besides.
    pub open spec fn by_chance(self, fewest: nat, most: nat) -> bool {
        let b = self.border@.len();
        &&& self.dice.rolls() == all_rolls(fewest, most, b, self.turns@)
        &&& forall|i: int|
            0 <= i < self.turns@.len() ==> may_take(#[trigger] self.turns@[i], fewest, most, b)
        &&& self.order@ == order_after(b, self.turns@)
        &&& self.draws@ == sets_of(self.border@, self.turns@)
    }

    /// Whether `after` is this sampler once a sample was taken by chance.
    pub open spec fn took(self, fewest: nat, most: nat, turn: Turn, after: Sampler) -> bool {
        let b = self.border@.len();
        &&& may_take(turn, fewest, most, b)
        &&& after.border@ == self.border@
        &&& after.dice.rolls() == self.dice.rolls() + turn_rolls(
            fewest,
            most,
            b,
            turn.count,
            turn.picks,
        )
        &&& after.turns@ == self.turns@.push(turn)
        &&& after.order@ == shuffled(self.order@, turn.picks, turn.picks.len() as int)
        &&& after.draws@ == self.draws@.push(picked(self.border@, after.order@, turn.count))
    }

    /// The same but for the sums.
    spec fn same_cells(self, other: Sampler) -> bool {
        &&& self.border@ == other.border@
        &&& self.interior@ == other.interior@
        &&& self.weights@ == other.weights@
        &&& self.spreads@ == other.spreads@
        &&& self.order@ == other.order@
        &&& self.attempts == other.attempts
    }
}

/// A list of the border as a set.
pub(crate) proof fn lemma_border(setup: SimSetup, border: Seq<usize>)
    requires
        setup.wf(),
        setup.hidden_cells@.len() <= usize::MAX,
        border == propagate::listed(border_cells(setup), setup.hidden_cells@.len() as int),
    ensures
        layouts::cell_set(border) =~= border_cells(setup),
        layouts::distinct_below(border, setup.hidden_cells@.len()),
        border_cells(setup).subset_of(layouts::first_cells(setup.hidden_cells@.len())),
        border_cells(setup).finite(),
{
    let ds = layouts::demands(setup.constraints@);
    let n = setup.hidden_cells@.len();
    slices::lemma_covered_below(ds, ds.len() as int, n);
    propagate::lemma_listed(border_cells(setup), n as usize);
    assert(border_cells(setup).intersect(layouts::first_cells(n)) =~= border_cells(setup));
}

/// The interior as a set.
pub(crate) proof fn lemma_interior(setup: SimSetup, interior: Seq<usize>)
    requires
        setup.hidden_cells@.len() <= usize::MAX,
        interior == combine::interior_of(setup),
    ensures
        layouts::cell_set(interior) =~= layouts::first_cells(
            setup.hidden_cells@.len(),
        ).difference(border_cells(setup)),
        layouts::distinct_below(interior, setup.hidden_cells@.len()),
{
    let n = setup.hidden_cells@.len();
    let rest = layouts::first_cells(n).difference(border_cells(setup));
    propagate::lemma_listed(rest, n as usize);
    assert(rest.intersect(layouts::first_cells(n)) =~= rest);
}

/// Adds the same amount to each of some cells.
fn add_to(counts: &mut Vec<BigNat>, cells: &Vec<usize>, amount: &BigNat)
    requires
        counting::poly_wf(old(counts)@),
        amount.wf(),
        layouts::distinct_below(cells@, old(counts)@.len()),
    ensures
        final(counts)@.len() == old(counts)@.len(),
        counting::poly_wf(final(counts)@),
        forall|c: int|
            0 <= c < old(counts)@.len() ==> (#[trigger] final(counts)@[c])@ == old(counts)@[c]@
                + if layouts::cell_set(cells@).contains(c) {
                amount@
            } else {
                0
            },
{
    let ghost start = counts@;
    for i in 0..cells.len()
        invariant
            amount.wf(),
            layouts::distinct_below(cells@, start.len()),
            counts@.len() == start.len(),
            counting::poly_wf(counts@),
            forall|c: int|
                0 <= c < start.len() ==> (#[trigger] counts@[c])@ == start[c]@
                    + if layouts::cell_set(cells@.take(i as int)).contains(c) {
                    amount@
                } else {
                    0
                },
    {
        let cell: usize = cells[i];
        let ghost done = cells@.take(i as int);
        let ghost before = counts@;
        proof {
            slices::lemma_cell_set_push(done, cell);
            assert(done.push(cell) =~= cells@.take(i + 1));
            assert(!layouts::cell_set(done).contains(cell as int)) by {
                if layouts::cell_set(done).contains(cell as int) {
                    let j = choose|j: int| 0 <= j < done.len() && #[trigger] done[j] == cell as int;
                    assert(cells@[j] == cells@[i as int]);
                }
            }
            assert(before[cell as int].wf());
        }
        let sum: BigNat = counts[cell].plus(amount);
        counts.set(cell, sum);
        proof {
            assert forall|c: int| 0 <= c < start.len() implies (#[trigger] counts@[c])@
                == start[c]@ + if layouts::cell_set(cells@.take(i + 1)).contains(c) {
                amount@
            } else {
                0
            } by {
                assert(before[c]@ == start[c]@ + if layouts::cell_set(done).contains(c) {
                    amount@
                } else {
                    0
                });
            }
        }
    }
    assert(cells@.take(cells@.len() as int) =~= cells@);
}

/// Brings `count` of the positions to the front, one after the other, each drawn out of
/// those that are left.
fn shuffle(order: &mut Vec<usize>, count: usize, dice: &mut Dice)
    requires
        count <= old(order)@.len(),
        layouts::distinct_below(old(order)@, old(order)@.len()),
    ensures
        final(order)@.len() == old(order)@.len(),
        layouts::distinct_below(final(order)@, old(order)@.len()),
        exists|picks: Seq<usize>|
            {
                &&& #[trigger] chance::in_range(picks, old(order)@.len())
                &&& picks.len() == count
                &&& final(order)@ == shuffled(old(order)@, picks, count as int)
                &&& final(dice).rolls() == old(dice).rolls() + chance::rolls_of(
                    picks,
                    old(order)@.len(),
                )
            },
{
    let ghost start = order@;
    let ghost rolls = dice.rolls();
    let ghost mut picks: Seq<usize> = Seq::empty();
    let b: usize = order.len();
    assert(rolls + chance::rolls_of(picks, b as nat) =~= rolls);
    for i in 0..count
        invariant
            count <= b,
            b == start.len(),
            order@.len() == b,
            layouts::distinct_below(start, b as nat),
            layouts::distinct_below(order@, b as nat),
            chance::in_range(picks, b as nat),
            picks.len() == i,
            order@ == shuffled(start, picks, i as int),
            dice.rolls() == rolls + chance::rolls_of(picks, b as nat),
    {
        let r: usize = dice.roll(b - i);
        let j: usize = i + r;
        let a: usize = order[i];
        let c: usize = order[j];
        order.set(i, c);
        order.set(j, a);
        proof {
            let more = picks.push(r);
            lemma_shuffled_prefix(start, picks, more, i as int);
            chance::lemma_rolls_push(picks, b as nat, r);
            assert(chance::in_range(more, b as nat)) by {
                assert forall|k: int| 0 <= k < more.len() implies (#[trigger] more[k]) < b - k by {
                    if k < i {
                        assert(more[k] == picks[k]);
                    }
                }
            }
            assert(order@ =~= shuffled(start, more, i + 1));
            assert(dice.rolls() =~= rolls + chance::rolls_of(more, b as nat));
            lemma_shuffled(start, more, i + 1);
            picks = more;
        }
    }
    assert(chance::in_range(picks, b as nat));
}

/// The first places depend on the first draws alone.
proof fn lemma_shuffled_prefix(order: Seq<usize>, a: Seq<usize>, b: Seq<usize>, k: int)
    requires
        k <= a.len(),
        k <= b.len(),
        forall|i: int| 0 <= i < k ==> #[trigger] a[i] == b[i],
    ensures
        shuffled(order, a, k) == shuffled(order, b, k),
    decreases k,
{
    if k > 0 {
        lemma_shuffled_prefix(order, a, b, k - 1);
        assert(a[k - 1] == b[k - 1]);
    }
}

/// Shuffling keeps every position once.
proof fn lemma_shuffled(order: Seq<usize>, picks: Seq<usize>, k: int)
    requires
        layouts::distinct_below(order, order.len()),
        chance::in_range(picks, order.len()),
        0 <= k <= picks.len(),
    ensures
        shuffled(order, picks, k).len() == order.len(),
        layouts::distinct_below(shuffled(order, picks, k), order.len()),
    decreases k,
{
    if k > 0 {
        lemma_shuffled(order, picks, k - 1);
        let before = shuffled(order, picks, k - 1);
        let after = shuffled(order, picks, k);
        let i = k - 1;
        let j = i + picks[i];
        assert(picks[i] < order.len() - i);
        assert forall|x: int, y: int| 0 <= x < y < after.len() implies after[x] != after[y] by {
            let px = if x == i {
                j
            } else if x == j {
                i
            } else {
                x
            };
            let py = if y == i {
                j
            } else if y == j {
                i
            } else {
                y
            };
            assert(after[x] == before[px]);
            assert(after[y] == before[py]);
            if px < py {
                assert(before[px] != before[py]);
            } else {
                assert(before[py] != before[px]);
            }
        }
        assert forall|x: int| 0 <= x < after.len() implies (#[trigger] after[x]) < order.len() by {
            let px = if x == i {
                j
            } else if x == j {
                i
            } else {
                x
            };
            assert(after[x] == before[px]);
        }
    }
}

/// One more sample by chance.
proof fn lemma_still_by_chance(
    before: Sampler,
    fewest: nat,
    most: nat,
    turn: Turn,
    after: Sampler,
)
    requires
        before.by_chance(fewest, most),
        before.took(fewest, most, turn, after),
    ensures
        after.by_chance(fewest, most),
{
    let turns = after.turns@;
    assert(turns.drop_last() =~= before.turns@);
    assert forall|i: int| 0 <= i < turns.len() implies may_take(
        #[trigger] turns[i],
        fewest,
        most,
        before.border@.len(),
    ) by {
        if i < before.turns@.len() {
            assert(turns[i] == before.turns@[i]);
        }
    }
}

impl Sampler {
    /// No samples yet.
    pub fn start(setup: &SimSetup) -> (sampler: Self)
        requires
            setup.wf(),
            setup.hidden_cells@.len() < usize::MAX,
        ensures
            sampler.wf(*setup),
            sampler.attempts == 0,
            sampler.draws@ == Seq::<Set<int>>::empty(),
            sampler.accepted@ == Seq::<Set<int>>::empty(),
            forall|fewest: nat, most: nat| #[trigger] sampler.by_chance(fewest, most),
    {
        let n: usize = setup.hidden_cells.len();
        let spoken: Vec<bool> = components::mark_spoken(n, &setup.constraints);
        let ghost said = border_cells(*setup);
        let ghost rest = layouts::first_cells(n as nat).difference(said);
        let mut border: Vec<usize> = Vec::new();
        let mut interior: Vec<usize> = Vec::new();
        let mut counts: Vec<BigNat> = Vec::new();
        for i in 0..n
            invariant
                spoken@.len() == n,
                propagate::set_flags(spoken@) =~= said,
                rest == layouts::first_cells(n as nat).difference(said),
                border@ == propagate::listed(said, i as int),
                interior@ == propagate::listed(rest, i as int),
                interior@.len() <= i,
                border@.len() <= i,
                counts@.len() == i,
                counting::poly_wf(counts@),
                forall|c: int| 0 <= c < i ==> (#[trigger] counts@[c])@ == 0,
        {
            assert(propagate::set_flags(spoken@).contains(i as int) <==> spoken@[i as int]);
            if spoken[i] {
                border.push(i);
            } else {
                interior.push(i);
            }
            counts.push(BigNat::zero());
        }
        let mut order: Vec<usize> = Vec::new();
        for i in 0..border.len()
            invariant
                order@.len() == i,
                forall|k: int| 0 <= k < i ==> #[trigger] order@[k] == k,
        {
            order.push(i);
        }
        let top: usize = if setup.mines_to_place < interior.len() {
            setup.mines_to_place
        } else {
            interior.len()
        };
        let weights: Vec<BigNat> = counting::binomials(interior.len(), top);
        let outer: usize = if setup.mines_to_place < border.len() {
            setup.mines_to_place
        } else {
            border.len()
        };
        let spreads: Vec<BigNat> = counting::binomials(border.len(), outer);
        proof {
            lemma_border(*setup, border@);
            layouts::lemma_cell_set_len(border@, n as nat);
            assert(order@ =~= order_after(border@.len(), Seq::empty()));
        }
        Sampler {
            border,
            interior,
            weights,
            spreads,
            order,
            counts,
            total: BigNat::zero(),
            valid: 0,
            attempts: 0,
            dice: Dice::new(),
            turns: Ghost(Seq::empty()),
            draws: Ghost(Seq::empty()),
            accepted: Ghost(Seq::empty()),
        }
    }

    /// Considers mines on some cells of the border as a sample. It is accepted where
    /// it agrees with every number.
    pub fn record(&mut self, setup: &SimSetup, chosen: &Vec<usize>) -> (valid: bool)
        requires
            old(self).wf(*setup),
            setup.wf(),
            old(self).attempts < usize::MAX,
            layouts::distinct_below(chosen@, setup.hidden_cells@.len()),
            layouts::cell_set(chosen@).subset_of(border_cells(*setup)),
            chosen@.len() <= setup.mines_to_place,
            setup.mines_to_place - chosen@.len() <= interior_len(*setup),
        ensures
            final(self).wf(*setup),
            final(self).attempts == old(self).attempts + 1,
            final(self).draws@ == old(self).draws@.push(layouts::cell_set(chosen@)),
            final(self).order@ == old(self).order@,
            final(self).dice == old(self).dice,
            final(self).turns@ == old(self).turns@,
            valid == acceptable(*setup, layouts::cell_set(chosen@)),
            final(self).accepted@ == if valid {
                old(self).accepted@.push(layouts::cell_set(chosen@))
            } else {
                old(self).accepted@
            },
    {
        let ghost before = *self;
        let ghost m = layouts::cell_set(chosen@);
        let ghost n = setup.hidden_cells@.len();
        proof {
            layouts::lemma_cell_set_len(chosen@, n);
            assert(setup.hidden_cells.len() == n);
            lemma_border(*setup, self.border@);
            lemma_interior(*setup, self.interior@);
        }
        self.attempts = self.attempts + 1;
        self.draws = Ghost(before.draws@.push(m));
        assert(self.draws@.drop_last() =~= before.draws@);
        let is_mine: Vec<bool> = mark(setup.hidden_cells.len(), chosen);
        let valid: bool = agrees(&setup.constraints, &is_mine);
        if valid {
            let left: usize = setup.mines_to_place - chosen.len();
            let inner: usize = self.interior.len();
            let factor: usize = if inner == 0 {
                1
            } else {
                inner
            };
            proof {
                layouts::lemma_cell_set_len(self.border@, n);
                lemma_len_subset(m, border_cells(*setup));
                assert(self.weights@[left as int].wf());
                assert(self.spreads@[m.len() as int].wf());
            }
            let whole: BigNat = self.spreads[chosen.len()].times(&self.weights[left]);
            let weight: BigNat = whole.times_small(factor as u64);
            let share: BigNat = whole.times_small(left as u64);
            self.total = self.total.plus(&weight);
            self.valid = self.valid + 1;
            add_to(&mut self.counts, chosen, &weight);
            let ghost middle = self.counts@;
            add_to(&mut self.counts, &self.interior, &share);
            self.accepted = Ghost(before.accepted@.push(m));
            proof {
                let log = self.accepted@;
                assert(log.drop_last() =~= before.accepted@);
                assert(log.last() == m);
                assert(left == left_over(*setup, m));
                assert(weight@ == sample_weight(*setup, m) * scale(*setup));
                assert(share@ == sample_weight(*setup, m) * left_over(*setup, m));
                assert forall|c: int| 0 <= c < n implies (#[trigger] self.counts@[c])@
                    == samples_mines(*setup, log, c) by {
                    assert(before.counts@[c]@ == samples_mines(*setup, before.accepted@, c));
                    assert(middle[c]@ == before.counts@[c]@ + if m.contains(c) {
                        weight@
                    } else {
                        0
                    });
                    assert(layouts::first_cells(n).contains(c));
                }
                assert(acceptable(*setup, m));
                assert forall|i: int| 0 <= i < log.len() implies acceptable(
                    *setup,
                    #[trigger] log[i],
                ) by {
                    if i < before.accepted@.len() {
                        assert(log[i] == before.accepted@[i]);
                    }
                }
            }
        }
        valid
    }

    /// Draws one sample: how many mines lie on the border, and on which cells.
    pub fn sample(&mut self, setup: &SimSetup, fewest: usize, most: usize)
        requires
            old(self).wf(*setup),
            setup.wf(),
            setup.hidden_cells@.len() < usize::MAX,
            old(self).attempts < usize::MAX,
            fewest <= most,
            most <= setup.mines_to_place,
            most <= old(self).border@.len(),
            setup.mines_to_place - fewest <= interior_len(*setup),
        ensures
            final(self).wf(*setup),
            final(self).attempts == old(self).attempts + 1,
            exists|m: Set<int>| #[trigger]
                drawn(*setup, m, fewest as int, most as int) && final(self).draws@ == old(
                    self,
                ).draws@.push(m) && final(self).accepted@ == if acceptable(*setup, m) {
                    old(self).accepted@.push(m)
                } else {
                    old(self).accepted@
                },
            exists|turn: Turn| #[trigger]
                old(self).took(fewest as nat, most as nat, turn, *final(self)),
            old(self).by_chance(fewest as nat, most as nat) ==> final(self).by_chance(
                fewest as nat,
                most as nat,
            ),
    {
        let ghost start = *self;
        let ghost n = setup.hidden_cells@.len();
        proof {
            assert(setup.hidden_cells.len() == n);
            lemma_border(*setup, self.border@);
            layouts::lemma_cell_set_len(self.border@, n);
            layouts::lemma_first_cells(n);
            lemma_len_subset(layouts::cell_set(self.border@), layouts::first_cells(n));
        }
        let b: usize = self.border.len();
        let count: usize = if fewest == most {
            fewest
        } else {
            fewest + self.dice.roll(most - fewest + 1)
        };
        let ghost rolled = self.dice.rolls();
        shuffle(&mut self.order, count, &mut self.dice);
        let ghost picks = choose|picks: Seq<usize>|
            {
                &&& #[trigger] chance::in_range(picks, b as nat)
                &&& picks.len() == count
                &&& self.order@ == shuffled(start.order@, picks, count as int)
                &&& self.dice.rolls() == rolled + chance::rolls_of(picks, b as nat)
            };
        let ghost turn = Turn { count: count as nat, picks };
        self.turns = Ghost(start.turns@.push(turn));
        assert(self.same_cells(Sampler { order: self.order, ..start }));
        let mut chosen: Vec<usize> = Vec::new();
        for i in 0..count
            invariant
                count <= b,
                b == self.border@.len(),
                self.order@.len() == b,
                layouts::distinct_below(self.order@, b as nat),
                layouts::distinct_below(self.border@, n),
                chosen@.len() == i,
                forall|k: int|
                    0 <= k < i ==> #[trigger] chosen@[k] == self.border@[self.order@[k] as int],
        {
            chosen.push(self.border[self.order[i]]);
        }
        proof {
            assert forall|k: int| 0 <= k < chosen@.len() implies (#[trigger] chosen@[k]) < n
                && border_cells(*setup).contains(chosen@[k] as int) by {
                let p = self.order@[k] as int;
                assert(chosen@[k] == self.border@[p]);
                assert(layouts::cell_set(self.border@).contains(self.border@[p] as int));
            }
            assert forall|x: int, y: int| 0 <= x < y < chosen@.len() implies chosen@[x]
                != chosen@[y] by {
                let p = self.order@[x] as int;
                let q = self.order@[y] as int;
                assert(p != q);
                if p < q {
                    assert(self.border@[p] != self.border@[q]);
                } else {
                    assert(self.border@[q] != self.border@[p]);
                }
            }
            assert forall|c: int| layouts::cell_set(chosen@).contains(c) implies border_cells(
                *setup,
            ).contains(c) by {
                let k = choose|k: int| 0 <= k < chosen@.len() && #[trigger] chosen@[k] == c;
            }
            layouts::lemma_cell_set_len(chosen@, n);
            assert(chosen@ =~= Seq::new(
                count as nat,
                |k: int| self.border@[self.order@[k] as int],
            ));
        }
        let valid: bool = self.record(setup, &chosen);
        proof {
            assert(drawn(*setup, layouts::cell_set(chosen@), fewest as int, most as int));
            assert(self.dice.rolls() =~= start.dice.rolls() + turn_rolls(
                fewest as nat,
                most as nat,
                b as nat,
                count as nat,
                picks,
            ));
            assert(start.took(fewest as nat, most as nat, turn, *self));
            if start.by_chance(fewest as nat, most as nat) {
                lemma_still_by_chance(start, fewest as nat, most as nat, turn, *self);
            }
        }
    }
}

// ---------------------------------------------------------------------------
// A run, step by step
// ---------------------------------------------------------------------------

/// How a run goes about it.
pub enum Phase {
    /// Looks at every layout.
    Exact(Enumeration),
    /// Draws samples, with at least and at most so many mines on the border.
    Sampling(Sampler, usize, usize),
    /// There is nothing to count.
    Nothing,
}

/// A run of the estimator that reports as it goes.
pub struct MonteCarloRun {
    pub setup: SimSetup,
    pub width: usize,
    pub height: usize,
    /// Steps the run takes at most, and how many lie between two reports.
    pub max_steps: usize,
    pub every: usize,
    /// Samples to accept at most.
    pub max_valid: usize,
    pub phase: Phase,
}

impl MonteCarloRun {
    /// The counts are right so far, and the run's limits hold.
    pub open spec fn wf(self) -> bool {
        &&& self.setup.wf()
        &&& self.setup.hidden_cells@.len() < usize::MAX
        &&& estimate::fits(self.setup, self.width as int, self.height as int)
        &&& self.every > 0
        &&& match self.phase {
            Phase::Exact(walk) => {
                &&& walk.wf(self.setup)
                &&& placements(self.setup).len() == self.max_steps
                &&& walk.steps <= self.max_steps
            },
            Phase::Sampling(sampler, fewest, most) => {
                &&& sampler.wf(self.setup)
                &&& fewest == fewest_mines(self.setup)
                &&& most == most_mines(self.setup)
                &&& fewest <= most
                &&& sampler.by_chance(fewest as nat, most as nat)
                &&& forall|i: int|
                    0 <= i < sampler.draws@.len() ==> drawn(
                        self.setup,
                        #[trigger] sampler.draws@[i],
                        fewest as int,
                        most as int,
                    )
            },
            Phase::Nothing => true,
        }
    }

    /// Steps taken.
    pub open spec fn steps(self) -> usize {
        match self.phase {
            Phase::Exact(walk) => walk.steps,
            Phase::Sampling(sampler, _, _) => sampler.attempts,
            Phase::Nothing => 0,
        }
    }

    /// Layouts or samples that agree with the numbers.
    pub open spec fn found(self) -> usize {
        match self.phase {
            Phase::Exact(walk) => walk.valid,
            Phase::Sampling(sampler, _, _) => sampler.valid,
            Phase::Nothing => 0,
        }
    }

    /// Everything drawn so far.
    pub open spec fn draws(self) -> Seq<Set<int>> {
        match self.phase {
            Phase::Sampling(sampler, _, _) => sampler.draws@,
            _ => Seq::empty(),
        }
    }

    /// The weight counted so far, and that on each cell.
    pub open spec fn total(self) -> nat {
        match self.phase {
            Phase::Exact(walk) => walk.valid as nat,
            Phase::Sampling(sampler, _, _) => sampler.total@,
            Phase::Nothing => 0,
        }
    }

    pub open spec fn counts(self) -> Seq<nat> {
        match self.phase {
            Phase::Exact(walk) => groups::widened(walk.counts@),
            Phase::Sampling(sampler, _, _) => counting::poly(sampler.counts@),
            Phase::Nothing => Seq::new(self.setup.hidden_cells@.len(), |c: int| 0nat),
        }
    }

    /// Whether the run is over: all layouts looked at, or a limit of the sampling
    /// reached. Sampling also gives up once a tenth of its attempts have come to nothing.
    pub open spec fn over(self) -> bool {
        match self.phase {
            Phase::Exact(walk) => walk.done,
            Phase::Sampling(sampler, _, _) => {
                ||| sampler.attempts >= self.max_steps
                ||| sampler.valid >= self.max_valid
                ||| sampler.valid == 0 && 0 < sampler.attempts && sampler.attempts
                    >= self.max_steps / 10
            },
            Phase::Nothing => true,
        }
    }

    /// Whether a run over samples comes to something whatever is drawn: it may draw and
    /// accept at least one, and every draw is a sample.
    pub open spec fn sure_to_find(self) -> bool {
        &&& self.phase is Sampling
        &&& self.max_steps > 0
        &&& self.max_valid > 0
        &&& every_draw_fits(self.setup)
    }

    /// Whether an estimate is what has been counted so far.
    pub open spec fn shows(self, estimate: Estimate) -> bool {
        &&& estimate.wf(self.width as int, self.height as int)
        &&& estimate.total@ == if self.total() == 0 {
            1
        } else {
            self.total()
        }
        &&& forall|x: int, y: int|
            0 <= x < self.width && 0 <= y < self.height ==> #[trigger] estimate.at(x, y)
                == estimate::reported(
                self.setup,
                self.counts(),
                self.total(),
                (x as usize, y as usize),
            )
    }

    /// The same run, further on.
    pub open spec fn continues(self, earlier: MonteCarloRun) -> bool {
        &&& self.setup == earlier.setup
        &&& self.width == earlier.width
        &&& self.height == earlier.height
        &&& self.max_steps == earlier.max_steps
        &&& self.every == earlier.every
        &&& self.max_valid == earlier.max_valid
        &&& self.steps() >= earlier.steps()
        &&& earlier.draws().is_prefix_of(self.draws())
        &&& self.phase is Exact <==> earlier.phase is Exact
        &&& self.phase is Sampling <==> earlier.phase is Sampling
    }

    /// Whether the run is over.
    pub fn finished(&self) -> (over: bool)
        ensures
            over == self.over(),
    {
        match &self.phase {
            Phase::Exact(walk) => walk.done,
            Phase::Sampling(sampler, _, _) => sampler.attempts >= self.max_steps || sampler.valid
                >= self.max_valid || (sampler.valid == 0 && 0 < sampler.attempts
                && sampler.attempts >= self.max_steps / 10),
            Phase::Nothing => true,
        }
    }

    /// Takes one step: looks at one layout, or draws one sample.
    pub fn advance(&mut self)
        requires
            old(self).wf(),
            !old(self).over(),
        ensures
            final(self).wf(),
            final(self).continues(*old(self)),
            final(self).steps() == old(self).steps() + 1,
            final(self).steps() <= final(self).max_steps,
    {
        let ghost before = *self;
        match &mut self.phase {
            Phase::Exact(walk) => {
                proof {
                    lemma_passed_bound(
                        before.setup,
                        combine::setup_layouts(before.setup),
                        walk.combo@,
                    );
                }
                walk.step(&self.setup);
            },
            Phase::Sampling(sampler, fewest, most) => {
                proof {
                    lemma_border(before.setup, sampler.border@);
                    layouts::lemma_cell_set_len(
                        sampler.border@,
                        before.setup.hidden_cells@.len(),
                    );
                }
                sampler.sample(&self.setup, *fewest, *most);
            },
            Phase::Nothing => {},
        }
    }

    /// What has been counted so far, as an estimate.
    pub fn estimate(&self) -> (estimate: Estimate)
        requires
            self.wf(),
        ensures
            self.shows(estimate),
    {
        match &self.phase {
            Phase::Exact(walk) => {
                let counts: Vec<BigNat> = combine::widen(&walk.counts);
                assert(counting::poly(counts@).len() == counts@.len());
                estimate::build_probs(
                    &counts,
                    &BigNat::from_u64(walk.valid as u64),
                    &self.setup,
                    self.width,
                    self.height,
                )
            },
            Phase::Sampling(sampler, _, _) => estimate::build_probs(
                &sampler.counts,
                &sampler.total,
                &self.setup,
                self.width,
                self.height,
            ),
            Phase::Nothing => {
                let mut zeros: Vec<BigNat> = Vec::new();
                for i in 0..self.setup.hidden_cells.len()
                    invariant
                        zeros@.len() == i,
                        counting::poly_wf(zeros@),
                        forall|c: int| 0 <= c < i ==> (#[trigger] zeros@[c])@ == 0,
                {
                    zeros.push(BigNat::zero());
                }
                assert(counting::poly(zeros@) =~= self.counts());
                estimate::build_probs(
                    &zeros,
                    &BigNat::zero(),
                    &self.setup,
                    self.width,
                    self.height,
                )
            },
        }
    }

    /// Steps taken, and layouts or samples found.
    fn progress(&self) -> (progress: (usize, usize))
        ensures
            progress == (self.steps(), self.found()),
    {
        match &self.phase {
            Phase::Exact(walk) => (walk.steps, walk.valid),
            Phase::Sampling(sampler, _, _) => (sampler.attempts, sampler.valid),
            Phase::Nothing => (0, 0),
        }
    }

    /// Runs until the next report is due: every twentieth of the way a snapshot, and
    /// at the end the final result.
    pub fn next_update(&mut self) -> (update: SimUpdate<Estimate>)
        requires
            old(self).wf(),
        ensures
            final(self).wf(),
            final(self).continues(*old(self)),
            match update {
                SimUpdate::Progress {
                    strategy,
                    attempts,
                    valid,
                    max_attempts,
                    memory_bytes,
                    probs,
                } => {
                    &&& strategy == Strategy::MonteCarlo
                    &&& attempts == final(self).steps()
                    &&& old(self).steps() < attempts <= max_attempts
                    &&& attempts % final(self).every == 0
                    &&& forall|s: usize|
                        old(self).steps() < s < attempts ==> #[trigger] (s % final(self).every)
                            != 0
                    &&& valid == final(self).found()
                    &&& max_attempts == final(self).max_steps
                    &&& memory_bytes == capped::capped(setup::memory(final(self).setup))
                    &&& final(self).shows(probs)
                },
                SimUpdate::Done { strategy, attempts, valid, memory_bytes, probs } => {
                    &&& strategy == Strategy::MonteCarlo
                    &&& final(self).over()
                    &&& attempts == final(self).steps()
                    &&& forall|s: usize|
                        old(self).steps() < s <= attempts ==> #[trigger] (s % final(self).every)
                            != 0
                    &&& valid == final(self).found()
                    &&& memory_bytes == capped::capped(setup::memory(final(self).setup))
                    &&& final(self).shows(probs)
                },
            },
    {
        let ghost start = *self;
        while !self.finished()
            invariant
                start == *old(self),
                self.wf(),
                self.continues(start),
                self.steps() <= self.max_steps || self.steps() == start.steps(),
                forall|s: usize|
                    start.steps() < s <= self.steps() ==> #[trigger] (s % self.every) != 0,
            ensures
                self.over(),
            decreases self.max_steps - self.steps(),
        {
            self.advance();
            let (attempts, valid): (usize, usize) = self.progress();
            if attempts % self.every == 0 {
                return SimUpdate::Progress {
                    strategy: Strategy::MonteCarlo,
                    attempts,
                    valid,
                    max_attempts: self.max_steps,
                    memory_bytes: setup::memory_estimate(&self.setup),
                    probs: self.estimate(),
                };
            }
        }
        let (attempts, valid): (usize, usize) = self.progress();
        SimUpdate::Done {
            strategy: Strategy::MonteCarlo,
            attempts,
            valid,
            memory_bytes: setup::memory_estimate(&self.setup),
            probs: self.estimate(),
        }
    }
}

impl MonteCarlo {
    /// Whether a problem has few enough placements to look at each of them.
    pub open spec fn counts_all(self, setup: SimSetup) -> bool {
        counting::binom(setup.hidden_cells@.len(), setup.mines_to_place as nat) <= self.max_valid
    }

    /// The problem of a board; without cells where there is none.
    pub open spec fn works_on(game: Minesweeper, setup: SimSetup) -> bool {
        if setup::mines_left(game) > setup::unopened(game).len() {
            setup.hidden_cells@.len() == 0 && setup.constraints@.len() == 0
                && setup.mines_to_place == 0 && setup.certain_mines@.len() == 0
                && setup.certain_safe@.len() == 0
        } else {
            setup.describes(game)
        }
    }

    /// Begins a run that reports as it goes.
    pub fn calculate_with_progress(&self, game: &Minesweeper) -> (run: MonteCarloRun)
        requires
            self.can_estimate(*game),
        ensures
            self.runs(*game, run),
            run.steps() == 0,
    {
        proof {
            board::lemma_scan_bound(
                setup::unopened_test(*game),
                game.width as int,
                game.height as int,
            );
        }
        let setup: SimSetup = match SimSetup::build(game) {
            Some(setup) => {
                proof {
                    estimate::lemma_fits(*game, setup);
                    setup::lemma_fewer_cells(*game, setup);
                }
                setup
            },
            None => SimSetup {
                hidden_cells: Vec::new(),
                constraints: Vec::new(),
                mines_to_place: 0,
                certain_mines: Vec::new(),
                certain_safe: Vec::new(),
            },
        };
        let n: usize = setup.hidden_cells.len();
        let k: usize = setup.mines_to_place;
        let combos: Option<u64> = counting::combinations(n, k).to_u64();
        let exact: Option<usize> = match combos {
            Some(count) => if count <= self.max_valid as u64 {
                Some(count as usize)
            } else {
                None
            },
            None => None,
        };
        proof {
            layouts::lemma_first_cells(n as nat);
            counting::lemma_subsets_count(layouts::first_cells(n as nat), k as nat);
            if k > n {
                counting::lemma_binom_beyond(n as nat, k as nat);
            }
        }
        match exact {
            Some(count) => {
                let every: usize = if count < 20 {
                    1
                } else {
                    count / 20
                };
                let phase: Phase = if k == 0 || k > n {
                    Phase::Nothing
                } else {
                    Phase::Exact(Enumeration::start(&setup))
                };
                MonteCarloRun {
                    setup,
                    width: game.width,
                    height: game.height,
                    max_steps: count,
                    every,
                    max_valid: self.max_valid,
                    phase,
                }
            },
            None => {
                let steps: usize = self.max_attempts;
                let every: usize = if steps < 20 {
                    1
                } else {
                    steps / 20
                };
                let sampler = Sampler::start(&setup);
                let inner: usize = sampler.interior.len();
                let outer: usize = sampler.border.len();
                let fewest: usize = k.saturating_sub(inner);
                let most: usize = if k < outer {
                    k
                } else {
                    outer
                };
                proof {
                    lemma_border(setup, sampler.border@);
                    lemma_interior(setup, sampler.interior@);
                    layouts::lemma_cell_set_len(sampler.border@, n as nat);
                    layouts::lemma_cell_set_len(sampler.interior@, n as nat);
                    let b = layouts::cell_set(sampler.border@);
                    let i = layouts::cell_set(sampler.interior@);
                    assert(b.disjoint(i));
                    lemma_set_disjoint_lens(b, i);
                    assert(b.union(i) =~= layouts::first_cells(n as nat));
                }
                MonteCarloRun {
                    setup,
                    width: game.width,
                    height: game.height,
                    max_steps: steps,
                    every,
                    max_valid: self.max_valid,
                    phase: Phase::Sampling(sampler, fewest, most),
                }
            },
        }
    }
}

impl MonteCarlo {
    /// Whether this is a run of this strategy over a board.
    pub open spec fn runs(self, game: Minesweeper, run: MonteCarloRun) -> bool {
        &&& run.wf()
        &&& run.width == game.width
        &&& run.height == game.height
        &&& Self::works_on(game, run.setup)
        &&& run.max_valid == self.max_valid
        &&& run.max_steps == if self.counts_all(run.setup) {
            counting::binom(run.setup.hidden_cells@.len(), run.setup.mines_to_place as nat) as usize
        } else {
            self.max_attempts
        }
        &&& run.every == if run.max_steps < 20 {
            1
        } else {
            run.max_steps / 20
        }
        &&& run.phase is Exact <==> self.counts_all(run.setup) && 0 < run.setup.mines_to_place
            <= run.setup.hidden_cells@.len()
        &&& run.phase is Sampling <==> !self.counts_all(run.setup)
    }

    /// Whether a run over a board may end with this report.
    pub open spec fn may_report(self, game: Minesweeper, update: SimUpdate<Estimate>) -> bool {
        exists|run: MonteCarloRun|
            {
                &&& #[trigger] self.runs(game, run)
                &&& run.over()
                &&& update is Done
                &&& update->Done_strategy == Strategy::MonteCarlo
                &&& update->Done_attempts == run.steps()
                &&& update->Done_valid == run.found()
                &&& run.sure_to_find() ==> run.found() > 0 && run.total() > 0
                &&& update->Done_memory_bytes == capped::capped(setup::memory(run.setup))
                &&& run.shows(update->Done_probs)
            }
    }

    /// Runs to the end and reports the result.
    pub fn final_report(&self, game: &Minesweeper) -> (update: SimUpdate<Estimate>)
        requires
            self.can_estimate(*game),
        ensures
            self.may_report(*game, update),
    {
        let mut run: MonteCarloRun = self.calculate_with_progress(game);
        let ghost start = run;
        loop
            invariant
                self.runs(*game, run),
                run.continues(start),
                run.steps() <= run.max_steps || run.steps() == start.steps(),
            decreases run.max_steps - run.steps(),
        {
            match run.next_update() {
                SimUpdate::Progress { .. } => {},
                SimUpdate::Done { strategy, attempts, valid, memory_bytes, probs } => {
                    let update = SimUpdate::Done {
                        strategy,
                        attempts,
                        valid,
                        memory_bytes,
                        probs,
                    };
                    assert(self.runs(*game, run));
                    proof {
                        if run.sure_to_find() {
                            law_a_run_finds_what_every_draw_gives(run);
                        }
                    }
                    return update;
                },
            }
        }
    }
}

impl ProbabilityStrategy for MonteCarlo {
    type Grid = Estimate;

    open spec fn can_estimate(&self, game: Minesweeper) -> bool {
        game.wf() && game.width * game.height < usize::MAX
    }

    /// Runs to the end. There is no answer where the board has no problem to solve, nor
    /// where open cells are left and nothing that agrees with the numbers was found.
    fn calculate(&mut self, game: &Minesweeper) -> (grid: Option<Estimate>)
        ensures
            *final(self) == *old(self),
            exists|run: MonteCarloRun|
                {
                    &&& #[trigger] old(self).runs(*game, run)
                    &&& run.over()
                    &&& grid is None <==> setup::mines_left(*game) > setup::unopened(*game).len()
                        || run.setup.hidden_cells@.len() > 0 && run.total() == 0
                    &&& run.sure_to_find() ==> run.found() > 0 && run.total() > 0
                    &&& grid matches Some(estimate) ==> run.shows(estimate)
                },
    {
        let mut run: MonteCarloRun = self.calculate_with_progress(game);
        let ghost start = run;
        while !run.finished()
            invariant
                self.runs(*game, run),
                run.continues(start),
                run.steps() <= run.max_steps || run.steps() == start.steps(),
            ensures
                run.over(),
            decreases run.max_steps - run.steps(),
        {
            run.advance();
        }
        assert(self.runs(*game, run));
        proof {
            if run.sure_to_find() {
                law_a_run_finds_what_every_draw_gives(run);
            }
        }
        if setup::no_problem(game) {
            return None;
        }
        if run.setup.hidden_cells.len() > 0 && run.nothing_counted() {
            return None;
        }
        Some(run.estimate())
    }
}

impl MonteCarloRun {
    /// Whether nothing has been counted.
    fn nothing_counted(&self) -> (nothing: bool)
        requires
            self.wf(),
        ensures
            nothing == (self.total() == 0),
    {
        match &self.phase {
            Phase::Exact(walk) => walk.valid == 0,
            Phase::Sampling(sampler, _, _) => sampler.total.is_zero(),
            Phase::Nothing => true,
        }
    }
}

/// An order of all positions has each of them.
proof fn lemma_order_has_all(order: Seq<usize>, p: int)
    requires
        layouts::distinct_below(order, order.len()),
        0 <= p < order.len(),
    ensures
        exists|i: int| 0 <= i < order.len() && #[trigger] order[i] == p,
{
    let b = order.len();
    layouts::lemma_cell_set_len(order, b);
    layouts::lemma_first_cells(b);
    lemma_subset_equality(layouts::cell_set(order), layouts::first_cells(b));
    assert(layouts::first_cells(b).contains(p));
    assert(layouts::cell_set(order).contains(p));
}

/// The draws that put mines on just these cells of the border, from some order of its
/// positions.
pub open spec fn picks_of(border: Seq<usize>, order: Seq<usize>, mines: Set<int>) -> Set<
    Seq<usize>,
> {
    Set::new(
        |picks: Seq<usize>|
            picks.len() == mines.len() && chance::in_range(picks, border.len()) && picked(
                border,
                shuffled(order, picks, picks.len() as int),
                mines.len(),
            ) == mines,
    )
}

/// What is left of the border after some draws.
spec fn unpicked(border: Seq<usize>, order: Seq<usize>) -> spec_fn(Seq<usize>) -> Seq<int> {
    |q: Seq<usize>|
        Seq::new(
            (border.len() - q.len()) as nat,
            |i: int| border[shuffled(order, q, q.len() as int)[q.len() + i] as int] as int,
        )
}

/// What is taken of the border by some draws.
spec fn picked_by(border: Seq<usize>, order: Seq<usize>) -> spec_fn(Seq<usize>) -> Set<int> {
    |q: Seq<usize>| picked(border, shuffled(order, q, q.len() as int), q.len())
}

/// A cell is picked where it stands at one of the first places.
proof fn lemma_picked(border: Seq<usize>, order: Seq<usize>, k: nat, c: int)
    ensures
        picked(border, order, k).contains(c) <==> exists|i: int|
            0 <= i < k && border[#[trigger] order[i] as int] == c,
{
    let list = Seq::new(k, |i: int| border[order[i] as int]);
    if picked(border, order, k).contains(c) {
        let i = choose|i: int| 0 <= i < list.len() && #[trigger] list[i] == c;
        assert(border[order[i] as int] == c);
    }
    if exists|i: int| 0 <= i < k && border[#[trigger] order[i] as int] == c {
        let i = choose|i: int| 0 <= i < k && border[#[trigger] order[i] as int] == c;
        assert(list[i] == c);
    }
}

/// Every draw takes one cell out of what is left of the border.
proof fn lemma_picking(border: Seq<usize>, order: Seq<usize>, n: nat)
    requires
        layouts::distinct_below(border, n),
        order.len() == border.len(),
        layouts::distinct_below(order, border.len()),
    ensures
        chance::takes_out(
            unpicked(border, order),
            picked_by(border, order),
            layouts::cell_set(border),
            border.len(),
        ),
{
    let left = unpicked(border, order);
    let taken = picked_by(border, order);
    let all = layouts::cell_set(border);
    let b = border.len();
    assert(taken(Seq::empty()) =~= Set::empty()) by {
        assert forall|c: int| !(#[trigger] taken(Seq::empty()).contains(c)) by {
            lemma_picked(border, shuffled(order, Seq::empty(), 0), 0, c);
        }
    }
    assert forall|q: Seq<usize>| #[trigger] chance::in_range(q, b) implies {
        &&& left(q).len() == b - q.len()
        &&& left(q).no_duplicates()
        &&& forall|c: int| #[trigger]
            left(q).contains(c) <==> all.contains(c) && !taken(q).contains(c)
    } by {
        let k = q.len() as int;
        let now = shuffled(order, q, k);
        let rest = left(q);
        lemma_shuffled(order, q, k);
        assert forall|x: int, y: int| 0 <= x < b && 0 <= y < b && x != y implies border[
            #[trigger] now[x] as int] != border[#[trigger] now[y] as int] by {
            let (u, v) = (now[x] as int, now[y] as int);
            if x < y {
                assert(now[x] != now[y]);
            } else {
                assert(now[y] != now[x]);
            }
            if u < v {
                assert(border[u] != border[v]);
            } else {
                assert(border[v] != border[u]);
            }
        }
        assert forall|x: int, y: int| 0 <= x < rest.len() && 0 <= y < rest.len() && x
            != y implies rest[x] != rest[y] by {
            assert(rest[x] == border[now[k + x] as int]);
            assert(rest[y] == border[now[k + y] as int]);
        }
        assert forall|c: int| #[trigger] rest.contains(c) <==> all.contains(c) && !taken(
            q,
        ).contains(c) by {
            lemma_picked(border, now, q.len(), c);
            if rest.contains(c) {
                let i = choose|i: int| 0 <= i < rest.len() && rest[i] == c;
                let p = now[k + i] as int;
                assert(border[p] == c);
                assert(all.contains(border[p] as int));
            }
            if all.contains(c) && !taken(q).contains(c) {
                let p = choose|p: int| 0 <= p < border.len() && #[trigger] border[p] == c;
                lemma_order_has_all(now, p);
                let i = choose|i: int| 0 <= i < now.len() && #[trigger] now[i] == p;
                assert(border[now[i] as int] == c);
                assert(i >= k);
                assert(rest[i - k] == c);
            }
        }
    }
    assert forall|q: Seq<usize>, r: usize| #[trigger]
        chance::in_range(q.push(r), b) implies taken(q.push(r)) == taken(q).insert(
        left(q)[r as int],
    ) by {
        let more = q.push(r);
        let k = q.len() as int;
        assert(more[k] < b - k);
        assert(chance::in_range(q, b)) by {
            assert forall|i: int| 0 <= i < q.len() implies (#[trigger] q[i]) < b - i by {
                assert(more[i] == q[i]);
            }
        }
        lemma_shuffled(order, q, k);
        lemma_shuffled_prefix(order, q, more, k);
        let was = shuffled(order, q, k);
        let now = shuffled(order, more, k + 1);
        let c = left(q)[r as int];
        assert(c == border[was[k + r] as int]);
        assert(now[k] == was[k + r]);
        assert forall|d: int| #[trigger] taken(more).contains(d) <==> taken(q).insert(c).contains(
            d,
        ) by {
            lemma_picked(border, now, more.len(), d);
            lemma_picked(border, was, q.len(), d);
            if taken(more).contains(d) {
                let i = choose|i: int|
                    0 <= i < more.len() && border[#[trigger] now[i] as int] == d;
                if i < k {
                    assert(now[i] == was[i]);
                }
            }
            if taken(q).contains(d) {
                let i = choose|i: int| 0 <= i < q.len() && border[#[trigger] was[i] as int] == d;
                assert(now[i] == was[i]);
            }
            if d == c {
                assert(border[now[k] as int] == d);
            }
        }
        assert(taken(more) =~= taken(q).insert(c));
    }
}

/// Every draw is equally likely. Whatever the order that earlier samples left the border
/// in, and whichever cells of it are asked for, equally many draws put the mines just
/// there, as many as there are orders to choose them in.
pub proof fn law_every_draw_is_equally_likely(setup: SimSetup, order: Seq<usize>, mines: Set<int>)
    requires
        setup.wf(),
        setup.hidden_cells@.len() <= usize::MAX,
        order.len() == border_cells(setup).len(),
        layouts::distinct_below(order, order.len()),
        mines.subset_of(border_cells(setup)),
    ensures
        ({
            let border = propagate::listed(border_cells(setup), setup.hidden_cells@.len() as int);
            &&& border.len() == border_cells(setup).len()
            &&& picks_of(border, order, mines).finite()
            &&& picks_of(border, order, mines).len() == chance::factorial(mines.len())
        }),
{
    let n = setup.hidden_cells@.len();
    let border = propagate::listed(border_cells(setup), n as int);
    let b = border.len();
    lemma_border(setup, border);
    layouts::lemma_cell_set_len(border, n);
    lemma_set_subset_finite(border_cells(setup), mines);
    lemma_len_subset(mines, border_cells(setup));
    layouts::lemma_first_cells(n);
    lemma_len_subset(border_cells(setup), layouts::first_cells(n));
    lemma_picking(border, order, n);
    chance::law_every_choice_is_equally_likely(
        unpicked(border, order),
        picked_by(border, order),
        layouts::cell_set(border),
        b,
        mines,
    );
    assert(picks_of(border, order, mines) =~= chance::draws_taking(
        picked_by(border, order),
        b,
        mines.len(),
        mines,
    ));
}

/// A sample puts mines just where its draws say: on these cells, where its picks are among
/// the equally many that choose them. The next sample starts from an order of all
/// positions again.
pub proof fn law_a_sample_takes_what_it_draws(
    setup: SimSetup,
    before: Sampler,
    fewest: nat,
    most: nat,
    turn: Turn,
    after: Sampler,
    mines: Set<int>,
)
    requires
        setup.wf(),
        setup.hidden_cells@.len() <= usize::MAX,
        before.wf(setup),
        before.took(fewest, most, turn, after),
        mines.subset_of(border_cells(setup)),
        mines.len() == turn.count,
    ensures
        after.draws@ == before.draws@.push(mines) <==> picks_of(
            before.border@,
            before.order@,
            mines,
        ).contains(turn.picks),
        picks_of(before.border@, before.order@, mines).len() == chance::factorial(mines.len()),
        after.order@.len() == before.order@.len(),
        layouts::distinct_below(after.order@, before.order@.len()),
{
    let n = setup.hidden_cells@.len();
    lemma_border(setup, before.border@);
    layouts::lemma_cell_set_len(before.border@, n);
    law_every_draw_is_equally_likely(setup, before.order@, mines);
    lemma_shuffled(before.order@, turn.picks, turn.picks.len() as int);
    if after.draws@ == before.draws@.push(mines) {
        assert(after.draws@.last() == mines);
    }
}

/// What a sample draws: first how many mines lie on the border, each number from the
/// fewest to the most by one roll, and none where only one number is possible; then one
/// cell after the other, the `i`-th out of the `b - i` that are left.
pub proof fn law_every_number_of_mines_is_equally_likely(
    fewest: nat,
    most: nat,
    b: nat,
    turn: Turn,
)
    requires
        may_take(turn, fewest, most, b),
    ensures
        ({
            let rolls = turn_rolls(fewest, most, b, turn.count, turn.picks);
            let first = if fewest == most {
                0int
            } else {
                1
            };
            &&& rolls.len() == first + turn.count
            &&& first == 1 ==> rolls[0].below == most - fewest + 1 && rolls[0].value + fewest
                == turn.count
            &&& first == 0 ==> turn.count == fewest
            &&& forall|i: int|
                0 <= i < turn.count ==> (#[trigger] turn.picks[i]) == rolls[first + i].value
                    && rolls[first + i].below == b - i
        }),
{
    let rolls = turn_rolls(fewest, most, b, turn.count, turn.picks);
    let first = if fewest == most {
        0int
    } else {
        1
    };
    assert forall|i: int| 0 <= i < turn.count implies (#[trigger] turn.picks[i])
        == rolls[first + i].value && rolls[first + i].below == b - i by {
        assert(rolls[first + i] == chance::rolls_of(turn.picks, b)[i]);
    }
}

/// What is kept of draws that are all samples is all of them.
proof fn lemma_all_kept(setup: SimSetup, draws: Seq<Set<int>>)
    requires
        forall|i: int| 0 <= i < draws.len() ==> acceptable(setup, #[trigger] draws[i]),
    ensures
        kept(setup, draws) == draws,
    decreases draws.len(),
{
    if draws.len() > 0 {
        let before = draws.drop_last();
        assert forall|i: int| 0 <= i < before.len() implies acceptable(
            setup,
            #[trigger] before[i],
        ) by {
            assert(before[i] == draws[i]);
        }
        lemma_all_kept(setup, before);
        assert(acceptable(setup, draws[draws.len() - 1]));
        assert(before.push(draws.last()) =~= draws);
    } else {
        assert(kept(setup, draws) =~= draws);
    }
}

/// Every sample has a weight.
proof fn lemma_weight_is_positive(setup: SimSetup, m: Set<int>)
    requires
        setup.wf(),
        setup.hidden_cells@.len() <= usize::MAX,
        acceptable(setup, m),
    ensures
        sample_weight(setup, m) > 0,
{
    let n = setup.hidden_cells@.len();
    lemma_border(setup, propagate::listed(border_cells(setup), n as int));
    lemma_len_subset(m, border_cells(setup));
    counting::lemma_binom_positive(border_cells(setup).len(), m.len());
    counting::lemma_binom_positive(interior_len(setup), left_over(setup, m));
    let a = counting::binom(border_cells(setup).len(), m.len());
    let b = completions(setup, m);
    assert(a * b > 0) by (nonlinear_arith)
        requires
            a > 0,
            b > 0,
    ;
}

/// A run that samples has found something when it is over, whatever was drawn, where
/// every draw is a sample. So it is on a board that shows no number yet.
pub proof fn law_a_run_finds_what_every_draw_gives(run: MonteCarloRun)
    requires
        run.wf(),
        run.over(),
        run.sure_to_find(),
    ensures
        run.found() == run.steps(),
        run.found() > 0,
        run.total() > 0,
{
    match run.phase {
        Phase::Sampling(sampler, _, _) => {
            let setup = run.setup;
            assert forall|i: int| 0 <= i < sampler.draws@.len() implies acceptable(
                setup,
                #[trigger] sampler.draws@[i],
            ) by {}
            lemma_all_kept(setup, sampler.draws@);
            let log = sampler.accepted@;
            assert(log.len() > 0);
            let m = log.last();
            assert(acceptable(setup, log[log.len() - 1]));
            lemma_weight_is_positive(setup, m);
            let w = sample_weight(setup, m);
            let f = scale(setup);
            assert(w * f > 0) by (nonlinear_arith)
                requires
                    w > 0,
                    f > 0,
            ;
        },
        _ => {},
    }
}

/// Where no number speaks about any cell, every draw is a sample.
pub proof fn law_without_numbers_every_draw_fits(setup: SimSetup)
    requires
        setup.constraints@.len() == 0,
        setup.mines_to_place <= setup.hidden_cells@.len() <= usize::MAX,
    ensures
        every_draw_fits(setup),
{
    let n = setup.hidden_cells@.len();
    let ds = layouts::demands(setup.constraints@);
    assert(ds.len() == 0);
    assert(border_cells(setup) =~= Set::empty());
    lemma_interior(setup, combine::interior_of(setup));
    layouts::lemma_cell_set_len(combine::interior_of(setup), n);
    layouts::lemma_first_cells(n);
    assert(layouts::first_cells(n).difference(border_cells(setup)) =~= layouts::first_cells(n));
    assert forall|m: Set<int>|
        drawn(setup, m, fewest_mines(setup) as int, most_mines(setup) as int) implies
        #[trigger] acceptable(setup, m) by {
        assert(m =~= Set::empty());
    }
}

/// Where every placement is looked at, the result is the exact one: the weight is the
/// number of layouts, and each cell's is the number of those in which it is a mine.
pub proof fn law_looking_at_everything_is_exact(run: MonteCarloRun, c: int)
    requires
        run.wf(),
        run.over(),
        run.phase is Exact,
        0 <= c < run.setup.hidden_cells@.len(),
    ensures
        run.total() == combine::setup_layouts(run.setup).len(),
        run.counts()[c] == combine::held(run.setup, c),
        run.steps() == counting::binom(
            run.setup.hidden_cells@.len(),
            run.setup.mines_to_place as nat,
        ),
{
    let n = run.setup.hidden_cells@.len();
    layouts::lemma_first_cells(n);
    counting::lemma_subsets_count(
        layouts::first_cells(n),
        run.setup.mines_to_place as nat,
    );
}

/// A run that samples stops only at its limits: once it has found as many samples as it may,
/// or drawn as often as it may; without a sample, already after a tenth of that. And there it
/// does stop.
pub proof fn law_a_run_stops_only_at_its_limits(run: MonteCarloRun)
    requires
        run.phase is Sampling,
    ensures
        run.over() && run.found() > 0 ==> run.found() >= run.max_valid || run.steps()
            >= run.max_steps,
        run.over() && run.found() == 0 && run.max_valid > 0 ==> run.steps() >= run.max_steps || 0
            < run.steps() && 10 * (run.steps() + 1) > run.max_steps,
        run.found() >= run.max_valid || run.steps() >= run.max_steps ==> run.over(),
{
}

/// What a run shows is its samples: on every open cell what they add up to there, over what
/// they add up to in all; on proven mines all of it, and on every other cell none. The
/// samples are those of the draws that agree with the numbers.
pub proof fn law_a_run_shows_its_samples(
    run: MonteCarloRun,
    sampler: Sampler,
    estimate: Estimate,
    i: int,
)
    requires
        run.wf(),
        run.phase matches Phase::Sampling(held, _, _) && held == sampler,
        run.shows(estimate),
        0 <= i < run.setup.hidden_cells@.len(),
        !run.setup.certain_mines@.contains(run.setup.hidden_cells@[i]),
    ensures
        sampler.accepted@ == kept(run.setup, sampler.draws@),
        samples_total(run.setup, sampler.accepted@) > 0 ==> estimate.total@ == samples_total(
            run.setup,
            sampler.accepted@,
        ) && estimate.at(
            run.setup.hidden_cells@[i].0 as int,
            run.setup.hidden_cells@[i].1 as int,
        ) == samples_mines(run.setup, sampler.accepted@, i),
{
    let hidden = run.setup.hidden_cells@;
    let p = hidden[i];
    let k = setup::index_in(hidden, p);
    assert(0 <= k < hidden.len() && hidden[k] == p);
    assert(k == i);
    assert(p.0 < run.width && p.1 < run.height);
    assert(estimate.at(p.0 as int, p.1 as int) == estimate::reported(
        run.setup,
        run.counts(),
        run.total(),
        (p.0 as int as usize, p.1 as int as usize),
    ));
    assert(sampler.counts@[i]@ == samples_mines(run.setup, sampler.accepted@, i));
}

/// Every sample came out of the dice: the rolls of the `i`-th follow those of the ones before
/// it, and its cells are those that its picks bring to the front.
pub proof fn law_samples_come_out_of_the_dice(sampler: Sampler, fewest: nat, most: nat, i: int)
    requires
        sampler.by_chance(fewest, most),
        0 <= i < sampler.turns@.len(),
    ensures
        ({
            let b = sampler.border@.len();
            let turns = sampler.turns@;
            let turn = turns[i];
            let before = all_rolls(fewest, most, b, turns.take(i));
            let rolls = turn_rolls(fewest, most, b, turn.count, turn.picks);
            let order = order_after(b, turns.take(i));
            &&& sampler.draws@.len() == turns.len()
            &&& may_take(turn, fewest, most, b)
            &&& (before + rolls).is_prefix_of(sampler.dice.rolls())
            &&& i == turns.len() - 1 ==> before + rolls == sampler.dice.rolls()
            &&& sampler.draws@[i] == picked(
                sampler.border@,
                shuffled(order, turn.picks, turn.picks.len() as int),
                turn.count,
            )
        }),
{
    let b = sampler.border@.len();
    let turns = sampler.turns@;
    lemma_rolls_prefix(fewest, most, b, turns, i + 1);
    lemma_sets_prefix(sampler.border@, turns, i + 1);
    assert(turns.take(i + 1).drop_last() =~= turns.take(i));
    assert(turns.take(turns.len() as int) =~= turns);
    lemma_sets_len(sampler.border@, turns);
    lemma_sets_len(sampler.border@, turns.take(i + 1));
    lemma_sets_len(sampler.border@, turns.take(i));
    let some = turns.take(i + 1);
    assert(some.last() == turns[i]);
    let sets = sets_of(sampler.border@, some);
    assert(sets[i] == picked(sampler.border@, order_after(b, some), some.last().count));
    assert(sets[i] == sampler.draws@[i]);
    assert(order_after(b, some) == shuffled(
        order_after(b, turns.take(i)),
        turns[i].picks,
        turns[i].picks.len() as int,
    ));
    if i == turns.len() - 1 {
        assert(some =~= turns);
    }
}

proof fn lemma_rolls_prefix(fewest: nat, most: nat, b: nat, turns: Seq<Turn>, k: int)
    requires
        0 <= k <= turns.len(),
    ensures
        all_rolls(fewest, most, b, turns.take(k)).is_prefix_of(all_rolls(fewest, most, b, turns)),
    decreases turns.len(),
{
    if k < turns.len() {
        let less = turns.drop_last();
        lemma_rolls_prefix(fewest, most, b, less, k);
        assert(less.take(k) =~= turns.take(k));
    } else {
        assert(turns.take(k) =~= turns);
    }
}

proof fn lemma_sets_len(border: Seq<usize>, turns: Seq<Turn>)
    ensures
        sets_of(border, turns).len() == turns.len(),
    decreases turns.len(),
{
    if turns.len() > 0 {
        lemma_sets_len(border, turns.drop_last());
    }
}

proof fn lemma_sets_prefix(border: Seq<usize>, turns: Seq<Turn>, k: int)
    requires
        0 <= k <= turns.len(),
    ensures
        sets_of(border, turns.take(k)).is_prefix_of(sets_of(border, turns)),
    decreases turns.len(),
{
    lemma_sets_len(border, turns);
    if k < turns.len() {
        let less = turns.drop_last();
        lemma_sets_prefix(border, less, k);
        assert(less.take(k) =~= turns.take(k));
    } else {
        assert(turns.take(k) =~= turns);
    }
}

/// A run reports every twentieth of its way, and of a short one every step.
pub proof fn law_a_run_reports_every_twentieth(
    strategy: MonteCarlo,
    game: Minesweeper,
    run: MonteCarloRun,
)
    requires
        strategy.runs(game, run),
    ensures
        run.max_steps >= 20 ==> 20 * run.every <= run.max_steps < 20 * (run.every + 1),
        run.max_steps < 20 ==> run.every == 1,
{
}

/// Where there are no more ways to place the mines than samples may be accepted, none is
/// drawn: all are looked at, and the result is exact.
pub proof fn law_few_placements_are_all_looked_at(
    strategy: MonteCarlo,
    game: Minesweeper,
    run: MonteCarloRun,
    c: int,
)
    requires
        strategy.runs(game, run),
        run.over(),
        counting::binom(run.setup.hidden_cells@.len(), run.setup.mines_to_place as nat)
            <= strategy.max_valid,
        0 < run.setup.mines_to_place <= run.setup.hidden_cells@.len(),
        0 <= c < run.setup.hidden_cells@.len(),
    ensures
        run.total() == combine::setup_layouts(run.setup).len(),
        run.counts()[c] == combine::held(run.setup, c),
        run.draws().len() == 0,
{
    law_looking_at_everything_is_exact(run, c);
}

} // verus!
