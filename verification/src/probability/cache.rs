//! Group solutions kept from one board to the next.
//!
//! Opening a square changes the numbers around it and nothing else, so most groups
//! come back as they were and their solutions can be reused. A solution is a
//! function of what a group is, so an entry never goes stale: a board that changes
//! a group changes its signature too.

use vstd::prelude::*;
use vstd::relations::{antisymmetric, reflexive, strongly_connected, total_ordering, transitive};
use vstd::seq_lib::*;
use crate::capped;
use crate::layouts;
use crate::layouts::Demand;
use crate::probability::components::Component;
use crate::probability::search;
use crate::probability::search::ComponentSolution;

verus! {

// ---------------------------------------------------------------------------
// Sorting
// ---------------------------------------------------------------------------

/// Whether a list never falls.
pub open spec fn rising(list: Seq<usize>) -> bool {
    forall|i: int, j: int| 0 <= i <= j < list.len() ==> list[i] <= list[j]
}

/// `a` comes before `b`, comparing entry by entry; a list comes before its extensions.
pub open spec fn list_before(a: Seq<usize>, b: Seq<usize>) -> bool
    decreases a.len(),
{
    if b.len() == 0 {
        false
    } else if a.len() == 0 {
        true
    } else {
        a[0] < b[0] || a[0] == b[0] && list_before(a.drop_first(), b.drop_first())
    }
}

/// `a` comes before `b`: by cells, then by mines.
pub open spec fn demand_before(a: Demand, b: Demand) -> bool {
    list_before(a.cells, b.cells) || a.cells == b.cells && a.mines < b.mines
}

/// Whether no number comes after a later one.
pub open spec fn in_order(list: Seq<Demand>) -> bool {
    forall|i: int, j: int|
        0 <= i < j < list.len() ==> !demand_before(#[trigger] list[j], #[trigger] list[i])
}

/// Of two lists, either they are equal or one comes first.
proof fn lemma_list_total(a: Seq<usize>, b: Seq<usize>)
    ensures
        a == b || list_before(a, b) || list_before(b, a),
        !(list_before(a, b) && list_before(b, a)),
        !list_before(a, a),
    decreases a.len(),
{
    if a.len() > 0 {
        lemma_list_total(a.drop_first(), a.drop_first());
    }
    if a.len() == 0 && b.len() == 0 {
        assert(a =~= b);
    } else if a.len() > 0 && b.len() > 0 {
        lemma_list_total(a.drop_first(), b.drop_first());
        if a[0] == b[0] && a.drop_first() == b.drop_first() {
            assert(a =~= seq![a[0]] + a.drop_first());
            assert(b =~= seq![b[0]] + b.drop_first());
        }
    }
}

proof fn lemma_list_transitive(a: Seq<usize>, b: Seq<usize>, c: Seq<usize>)
    requires
        list_before(a, b),
        list_before(b, c),
    ensures
        list_before(a, c),
    decreases a.len(),
{
    if a.len() > 0 {
        if a[0] == b[0] && b[0] == c[0] {
            lemma_list_transitive(a.drop_first(), b.drop_first(), c.drop_first());
        }
    }
}

proof fn lemma_demand_total(a: Demand, b: Demand)
    ensures
        a == b || demand_before(a, b) || demand_before(b, a),
        !(demand_before(a, b) && demand_before(b, a)),
        !demand_before(a, a),
{
    lemma_list_total(a.cells, b.cells);
    lemma_list_total(a.cells, a.cells);
}

proof fn lemma_demand_transitive(a: Demand, b: Demand, c: Demand)
    requires
        demand_before(a, b),
        demand_before(b, c),
    ensures
        demand_before(a, c),
{
    if list_before(a.cells, b.cells) && list_before(b.cells, c.cells) {
        lemma_list_transitive(a.cells, b.cells, c.cells);
    }
}

/// Inserting an entry adds it to the multiset of entries.
proof fn lemma_insert_multiset<A>(list: Seq<A>, at: int, x: A)
    requires
        0 <= at <= list.len(),
    ensures
        list.insert(at, x).to_multiset() =~= list.to_multiset().insert(x),
{
    let more = list.insert(at, x);
    assert(more.remove(at) =~= list);
    to_multiset_remove(more, at);
    more.to_multiset_ensures();
    assert(more[at] == x);
    assert(more.contains(x));
    assert(more.to_multiset().count(x) > 0);
    assert(list.to_multiset() == more.to_multiset().remove(x));
}

/// Sorts a list of cells.
fn sort_cells(cells: &Vec<usize>) -> (sorted: Vec<usize>)
    ensures
        rising(sorted@),
        sorted@.to_multiset() =~= cells@.to_multiset(),
{
    let mut sorted: Vec<usize> = Vec::new();
    assert(cells@.take(0) =~= sorted@);
    for i in 0..cells.len()
        invariant
            rising(sorted@),
            sorted@.to_multiset() =~= cells@.take(i as int).to_multiset(),
    {
        let cell: usize = cells[i];
        let mut at: usize = sorted.len();
        while at > 0 && sorted[at - 1] > cell
            invariant
                at <= sorted@.len(),
                rising(sorted@),
                forall|k: int| at <= k < sorted@.len() ==> cell < #[trigger] sorted@[k],
            decreases at,
        {
            at = at - 1;
        }
        let ghost before = sorted@;
        sorted.insert(at, cell);
        proof {
            lemma_insert_multiset(before, at as int, cell);
            to_multiset_build(cells@.take(i as int), cell);
            assert(cells@.take(i as int).push(cell) =~= cells@.take(i + 1));
            assert forall|a: int, b: int| 0 <= a <= b < sorted@.len() implies sorted@[a]
                <= sorted@[b] by {
                if a < at {
                    assert(sorted@[a] == before[a]);
                }
                if b < at {
                    assert(sorted@[b] == before[b]);
                }
                if a > at {
                    assert(sorted@[a] == before[a - 1]);
                }
                if b > at {
                    assert(sorted@[b] == before[b - 1]);
                }
                if a < at && b == at {
                    assert(before[a] <= before[at - 1]);
                }
            }
        }
    }
    assert(cells@.take(cells@.len() as int) =~= cells@);
    sorted
}

/// Whether one list comes before another.
fn list_less(a: &Vec<usize>, b: &Vec<usize>) -> (less: bool)
    ensures
        less == list_before(a@, b@),
{
    let mut i: usize = 0;
    assert(a@.skip(0) =~= a@);
    assert(b@.skip(0) =~= b@);
    while i < a.len() && i < b.len()
        invariant
            i <= a@.len(),
            i <= b@.len(),
            list_before(a@, b@) == list_before(a@.skip(i as int), b@.skip(i as int)),
        decreases a@.len() - i,
    {
        let ghost x = a@.skip(i as int);
        let ghost y = b@.skip(i as int);
        assert(x[0] == a@[i as int] && y[0] == b@[i as int]);
        assert(x.drop_first() =~= a@.skip(i + 1));
        assert(y.drop_first() =~= b@.skip(i + 1));
        if a[i] < b[i] {
            return true;
        }
        if b[i] < a[i] {
            return false;
        }
        i = i + 1;
    }
    i < b.len()
}

/// Whether two lists are equal.
fn lists_equal(a: &Vec<usize>, b: &Vec<usize>) -> (equal: bool)
    ensures
        equal == (a@ == b@),
{
    if a.len() != b.len() {
        return false;
    }
    for i in 0..a.len()
        invariant
            a@.len() == b@.len(),
            forall|k: int| 0 <= k < i ==> #[trigger] a@[k] == b@[k],
    {
        if a[i] != b[i] {
            assert(a@[i as int] != b@[i as int]);
            return false;
        }
    }
    assert(a@ =~= b@);
    true
}

/// What an executable constraint says.
pub open spec fn demand_of(constraint: (Vec<usize>, usize)) -> Demand {
    Demand { cells: constraint.0@, mines: constraint.1 as nat }
}

/// Whether one number comes before another.
fn constraint_less(a: &(Vec<usize>, usize), b: &(Vec<usize>, usize)) -> (less: bool)
    ensures
        less == demand_before(demand_of(*a), demand_of(*b)),
{
    list_less(&a.0, &b.0) || lists_equal(&a.0, &b.0) && a.1 < b.1
}

/// Puts a number into its place among sorted ones.
fn insert_sorted(sorted: &mut Vec<(Vec<usize>, usize)>, constraint: (Vec<usize>, usize))
    requires
        in_order(layouts::demands(old(sorted)@)),
    ensures
        in_order(layouts::demands(final(sorted)@)),
        layouts::demands(final(sorted)@).to_multiset() =~= layouts::demands(
            old(sorted)@,
        ).to_multiset().insert(demand_of(constraint)),
{
    let ghost before = layouts::demands(sorted@);
    let ghost new = demand_of(constraint);
    let mut at: usize = sorted.len();
    let mut going: bool = true;
    while going && at > 0
        invariant
            at <= sorted@.len(),
            before == layouts::demands(sorted@),
            new == demand_of(constraint),
            in_order(before),
            forall|k: int| at <= k < before.len() ==> demand_before(new, #[trigger] before[k]),
            !going ==> at > 0 && !demand_before(new, before[at - 1]),
        decreases at, if going {
            1int
        } else {
            0
        },
    {
        assert(before[at - 1] == demand_of(sorted@[at - 1]));
        if constraint_less(&constraint, &sorted[at - 1]) {
            at = at - 1;
        } else {
            going = false;
        }
    }
    sorted.insert(at, constraint);
    proof {
        let after = layouts::demands(sorted@);
        assert(after =~= before.insert(at as int, new));
        lemma_insert_multiset(before, at as int, new);
        assert forall|i: int, j: int| 0 <= i < j < after.len() implies !demand_before(
            #[trigger] after[j],
            #[trigger] after[i],
        ) by {
            if i < at && j < at {
                assert(after[i] == before[i] && after[j] == before[j]);
            } else if i > at {
                assert(after[i] == before[i - 1] && after[j] == before[j - 1]);
            } else if i == at {
                assert(after[j] == before[j - 1]);
                lemma_demand_total(new, before[j - 1]);
            } else if j == at {
                assert(after[i] == before[i]);
                if demand_before(new, before[i]) {
                    if i < at - 1 {
                        lemma_demand_total(before[i], before[at - 1]);
                        if before[i] != before[at - 1] {
                            lemma_demand_transitive(new, before[i], before[at - 1]);
                        }
                    }
                }
            } else {
                assert(after[i] == before[i] && after[j] == before[j - 1]);
            }
        }
    }
}

// ---------------------------------------------------------------------------
// What depends on the order and what does not
// ---------------------------------------------------------------------------

proof fn lemma_mines_among_remove(cells: Seq<usize>, at: int, layout: Set<int>)
    requires
        0 <= at < cells.len(),
    ensures
        layouts::mines_among(cells, layout) == layouts::mines_among(cells.remove(at), layout)
            + if layout.contains(cells[at] as int) {
            1nat
        } else {
            0nat
        },
    decreases cells.len(),
{
    let less = cells.remove(at);
    if at == cells.len() - 1 {
        assert(less =~= cells.drop_last());
    } else {
        lemma_mines_among_remove(cells.drop_last(), at, layout);
        assert(less.drop_last() =~= cells.drop_last().remove(at));
        assert(less.last() == cells.last());
    }
}

/// The order of a number's cells does not matter.
proof fn lemma_mines_among_reordered(a: Seq<usize>, b: Seq<usize>, layout: Set<int>)
    requires
        a.to_multiset() == b.to_multiset(),
    ensures
        layouts::mines_among(a, layout) == layouts::mines_among(b, layout),
    decreases a.len(),
{
    a.to_multiset_ensures();
    b.to_multiset_ensures();
    assert(a.len() == b.len());
    if a.len() > 0 {
        let x = a.last();
        let last = a.len() - 1;
        assert(a[last] == x);
        assert(a.contains(x));
        assert(b.to_multiset().count(x) > 0);
        assert(b.contains(x));
        let at = choose|at: int| 0 <= at < b.len() && b[at] == x;
        to_multiset_remove(a, last);
        to_multiset_remove(b, at);
        assert(a.remove(last) =~= a.drop_last());
        lemma_mines_among_reordered(a.drop_last(), b.remove(at), layout);
        lemma_mines_among_remove(b, at, layout);
    }
}

/// The same numbers, with the cells of each reordered.
pub open spec fn same_numbers(a: Seq<Demand>, b: Seq<Demand>) -> bool {
    &&& a.len() == b.len()
    &&& forall|i: int|
        #![trigger a[i]]
        #![trigger b[i]]
        0 <= i < a.len() ==> a[i].mines == b[i].mines && a[i].cells.to_multiset()
            == b[i].cells.to_multiset()
}

/// The numbers of a key: sorted cells, sorted numbers.
pub open spec fn is_key_of(key: Seq<Demand>, ds: Seq<Demand>) -> bool {
    &&& in_order(key)
    &&& forall|i: int| 0 <= i < key.len() ==> rising((#[trigger] key[i]).cells)
    &&& exists|middle: Seq<Demand>| #[trigger]
        same_numbers(middle, ds) && key.to_multiset() == middle.to_multiset()
}

/// A key asks of a layout what the numbers ask.
proof fn lemma_key_met(key: Seq<Demand>, ds: Seq<Demand>, layout: Set<int>)
    requires
        is_key_of(key, ds),
    ensures
        layouts::all_met(key, layout) <==> layouts::all_met(ds, layout),
{
    let middle = choose|middle: Seq<Demand>| #[trigger]
        same_numbers(middle, ds) && key.to_multiset() == middle.to_multiset();
    key.to_multiset_ensures();
    middle.to_multiset_ensures();
    assert forall|i: int| 0 <= i < ds.len() implies layouts::met(#[trigger] ds[i], layout)
        == layouts::met(middle[i], layout) by {
        lemma_mines_among_reordered(middle[i].cells, ds[i].cells, layout);
    }
    if layouts::all_met(key, layout) {
        assert forall|i: int| 0 <= i < ds.len() implies layouts::met(#[trigger] ds[i], layout) by {
            assert(middle.contains(middle[i]));
            assert(key.to_multiset().count(middle[i]) > 0);
            assert(key.contains(middle[i]));
            let k = choose|k: int| 0 <= k < key.len() && key[k] == middle[i];
            assert(layouts::met(key[k], layout));
        }
    }
    if layouts::all_met(ds, layout) {
        assert forall|k: int| 0 <= k < key.len() implies layouts::met(
            #[trigger] key[k],
            layout,
        ) by {
            assert(key.contains(key[k]));
            assert(middle.to_multiset().count(key[k]) > 0);
            assert(middle.contains(key[k]));
            let i = choose|i: int| 0 <= i < middle.len() && middle[i] == key[k];
            assert(layouts::met(ds[i], layout));
        }
    }
}

/// The order of cells.
pub open spec fn cell_order() -> spec_fn(usize, usize) -> bool {
    |a: usize, b: usize| a <= b
}

/// The order of numbers: by cells, then by mines.
pub open spec fn number_order() -> spec_fn(Demand, Demand) -> bool {
    |a: Demand, b: Demand| !demand_before(b, a)
}

/// A number with its cells sorted.
pub open spec fn sorted_number(demand: Demand) -> Demand {
    Demand { cells: demand.cells.sort_by(cell_order()), mines: demand.mines }
}

/// Numbers in the one form that does not depend on the order they came in: the cells
/// of each sorted, and they themselves sorted.
pub open spec fn canonical(ds: Seq<Demand>) -> Seq<Demand> {
    sorted_numbers(ds).sort_by(number_order())
}

/// Numbers as they came, the cells of each sorted.
pub open spec fn sorted_numbers(ds: Seq<Demand>) -> Seq<Demand> {
    Seq::new(ds.len(), |i: int| sorted_number(ds[i]))
}

proof fn lemma_orders_total()
    ensures
        total_ordering(cell_order()),
        total_ordering(number_order()),
{
    let less = number_order();
    assert(reflexive(less)) by {
        assert forall|a: Demand| #[trigger] less(a, a) by {
            lemma_demand_total(a, a);
        }
    }
    assert(antisymmetric(less)) by {
        assert forall|a: Demand, b: Demand| #[trigger] less(a, b) && #[trigger] less(
            b,
            a,
        ) implies a == b by {
            lemma_demand_total(a, b);
        }
    }
    assert(transitive(less)) by {
        assert forall|a: Demand, b: Demand, c: Demand| #[trigger] less(a, b) && #[trigger] less(
            b,
            c,
        ) implies less(a, c) by {
            lemma_demand_total(a, b);
            lemma_demand_total(b, c);
            lemma_demand_total(a, c);
            if demand_before(c, a) {
                if a != b && b != c {
                    lemma_demand_transitive(a, b, c);
                }
            }
        }
    }
    assert(strongly_connected(less)) by {
        assert forall|a: Demand, b: Demand| #[trigger] less(a, b) || #[trigger] less(b, a) by {
            lemma_demand_total(a, b);
        }
    }
}

/// A sorted form of some numbers is the canonical one.
proof fn lemma_key_is_canonical(key: Seq<Demand>, ds: Seq<Demand>)
    requires
        is_key_of(key, ds),
    ensures
        key == canonical(ds),
{
    let middle = choose|middle: Seq<Demand>| #[trigger]
        same_numbers(middle, ds) && key.to_multiset() == middle.to_multiset();
    let mapped = sorted_numbers(ds);
    lemma_orders_total();
    key.to_multiset_ensures();
    middle.to_multiset_ensures();
    assert(middle =~= mapped) by {
        assert forall|i: int| 0 <= i < ds.len() implies middle[i] == mapped[i] by {
            assert(middle.contains(middle[i]));
            assert(key.to_multiset().count(middle[i]) > 0);
            assert(key.contains(middle[i]));
            let k = choose|k: int| 0 <= k < key.len() && key[k] == middle[i];
            assert(rising(key[k].cells));
            ds[i].cells.lemma_sort_by_ensures(cell_order());
            lemma_sorted_unique(
                middle[i].cells,
                ds[i].cells.sort_by(cell_order()),
                cell_order(),
            );
        }
    }
    mapped.lemma_sort_by_ensures(number_order());
    lemma_sorted_unique(key, mapped.sort_by(number_order()), number_order());
}

/// The canonical form is a sorted form.
proof fn lemma_canonical_is_key(ds: Seq<Demand>)
    ensures
        is_key_of(canonical(ds), ds),
{
    let mapped = sorted_numbers(ds);
    let key = canonical(ds);
    lemma_orders_total();
    mapped.lemma_sort_by_ensures(number_order());
    assert(in_order(key)) by {
        assert forall|i: int, j: int| 0 <= i < j < key.len() implies !demand_before(
            #[trigger] key[j],
            #[trigger] key[i],
        ) by {
            assert(number_order()(key[i], key[j]));
        }
    }
    assert forall|i: int|
        #![trigger mapped[i]]
        0 <= i < mapped.len() implies mapped[i].cells.to_multiset() == ds[i].cells.to_multiset()
        && rising(mapped[i].cells) by {
        ds[i].cells.lemma_sort_by_ensures(cell_order());
        let sorted = mapped[i].cells;
        assert forall|a: int, b: int| 0 <= a <= b < sorted.len() implies sorted[a] <= sorted[b] by {
            if a < b {
                assert(cell_order()(sorted[a], sorted[b]));
            }
        }
    }
    assert(same_numbers(mapped, ds)) by {
        assert forall|i: int|
            #![trigger mapped[i]]
            #![trigger ds[i]]
            0 <= i < mapped.len() implies mapped[i].mines == ds[i].mines
            && mapped[i].cells.to_multiset() == ds[i].cells.to_multiset() by {
            assert(mapped[i].cells.to_multiset() == ds[i].cells.to_multiset());
        }
    }
    key.to_multiset_ensures();
    mapped.to_multiset_ensures();
    assert forall|i: int| 0 <= i < key.len() implies rising((#[trigger] key[i]).cells) by {
        assert(key.contains(key[i]));
        assert(mapped.to_multiset().count(key[i]) > 0);
        assert(mapped.contains(key[i]));
        let k = choose|k: int| 0 <= k < mapped.len() && mapped[k] == key[i];
        assert(rising(mapped[k].cells));
    }
}

/// A solution is a function of the canonical form: groups that share it have the same
/// layouts, so whatever solves one solves the other. This is why an entry of the
/// cache never goes stale.
pub proof fn law_one_key_one_solution(
    a: Seq<Demand>,
    b: Seq<Demand>,
    n: nat,
    solution: ComponentSolution,
)
    requires
        canonical(a) == canonical(b),
    ensures
        search::all_layouts(n, a) =~= search::all_layouts(n, b),
        search::solves(solution, n, a) <==> search::solves(solution, n, b),
{
    lemma_canonical_is_key(a);
    lemma_canonical_is_key(b);
    lemma_key_layouts(canonical(a), a, n);
    lemma_key_layouts(canonical(b), b, n);
}

/// The canonical form says which numbers there are, each by its sorted cells and its
/// mines, and how often; nothing else.
pub proof fn law_canonical_form_is_a_multiset(a: Seq<Demand>, b: Seq<Demand>)
    ensures
        canonical(a) == canonical(b) <==> sorted_numbers(a).to_multiset() == sorted_numbers(
            b,
        ).to_multiset(),
{
    lemma_orders_total();
    sorted_numbers(a).lemma_sort_by_ensures(number_order());
    sorted_numbers(b).lemma_sort_by_ensures(number_order());
    if sorted_numbers(a).to_multiset() == sorted_numbers(b).to_multiset() {
        lemma_sorted_unique(canonical(a), canonical(b), number_order());
    }
}

/// The same numbers in another order have the same sorted forms.
proof fn lemma_reordered(a: Seq<Demand>, b: Seq<Demand>)
    requires
        a.to_multiset() == b.to_multiset(),
    ensures
        sorted_numbers(a).to_multiset() == sorted_numbers(b).to_multiset(),
    decreases a.len(),
{
    a.to_multiset_ensures();
    b.to_multiset_ensures();
    assert(a.len() == b.len());
    if a.len() == 0 {
        assert(sorted_numbers(a) =~= sorted_numbers(b));
    } else {
        let x = a[a.len() - 1];
        let less = a.drop_last();
        assert(a.contains(x));
        assert(b.to_multiset().count(x) > 0);
        assert(b.contains(x));
        let j = choose|j: int| 0 <= j < b.len() && b[j] == x;
        let rest = b.remove(j);
        assert(a.remove(a.len() - 1) =~= less);
        to_multiset_remove(a, a.len() - 1);
        to_multiset_remove(b, j);
        lemma_reordered(less, rest);
        let y = sorted_number(x);
        assert(sorted_numbers(a) =~= sorted_numbers(less).push(y));
        to_multiset_build(sorted_numbers(less), y);
        assert(sorted_numbers(b) =~= sorted_numbers(rest).insert(j, y));
        lemma_insert_multiset(sorted_numbers(rest), j, y);
    }
}

/// Neither the order of the numbers nor that of the cells inside them changes the canonical
/// form: it is the same wherever the numbers of `b` are those of `a`, in any order, each
/// with its cells in any order.
pub proof fn law_order_does_not_matter(a: Seq<Demand>, middle: Seq<Demand>, b: Seq<Demand>)
    requires
        a.to_multiset() == middle.to_multiset(),
        same_numbers(middle, b),
    ensures
        canonical(a) == canonical(b),
{
    lemma_reordered(a, middle);
    lemma_orders_total();
    assert(sorted_numbers(middle) =~= sorted_numbers(b)) by {
        assert forall|i: int| 0 <= i < middle.len() implies sorted_numbers(middle)[i]
            == sorted_numbers(b)[i] by {
            assert(middle[i].cells.to_multiset() == b[i].cells.to_multiset());
            middle[i].cells.lemma_sort_by_ensures(cell_order());
            b[i].cells.lemma_sort_by_ensures(cell_order());
            lemma_sorted_unique(
                middle[i].cells.sort_by(cell_order()),
                b[i].cells.sort_by(cell_order()),
                cell_order(),
            );
        }
    }
    law_canonical_form_is_a_multiset(a, b);
}

/// Groups have the same key just where they have the same squares, in the same order, and
/// the same numbers over them, in any order.
pub proof fn law_equal_keys_are_equal_groups(
    a: Component,
    here: Seq<(usize, usize)>,
    b: Component,
    there: Seq<(usize, usize)>,
)
    ensures
        key_for(a, here) == key_for(b, there) <==> {
            &&& a.cells@.len() == b.cells@.len()
            &&& forall|i: int|
                0 <= i < a.cells@.len() ==> here[#[trigger] a.cells@[i] as int]
                    == there[b.cells@[i] as int]
            &&& sorted_numbers(layouts::demands(a.constraints@)).to_multiset() == sorted_numbers(
                layouts::demands(b.constraints@),
            ).to_multiset()
        },
{
    law_canonical_form_is_a_multiset(
        layouts::demands(a.constraints@),
        layouts::demands(b.constraints@),
    );
    let x = key_for(a, here);
    let y = key_for(b, there);
    assert forall|i: int| 0 <= i < a.cells@.len() implies here[#[trigger] a.cells@[i] as int]
        == x.cells[i] by {}
    if x == y {
        assert(x.cells.len() == y.cells.len());
        assert forall|i: int| 0 <= i < a.cells@.len() implies here[#[trigger] a.cells@[i] as int]
            == there[b.cells@[i] as int] by {
            assert(y.cells[i] == there[b.cells@[i] as int]);
        }
    }
    if a.cells@.len() == b.cells@.len() && (forall|i: int|
        0 <= i < a.cells@.len() ==> here[#[trigger] a.cells@[i] as int]
            == there[b.cells@[i] as int]) {
        assert(x.cells =~= y.cells) by {
            assert forall|i: int| 0 <= i < x.cells.len() implies x.cells[i] == y.cells[i] by {
                assert(here[a.cells@[i] as int] == there[b.cells@[i] as int]);
            }
        }
    }
}

/// What solves some numbers solves their canonical form, and the other way round.
pub proof fn lemma_canonical_solves(ds: Seq<Demand>, n: nat, solution: ComponentSolution)
    ensures
        search::solves(solution, n, canonical(ds)) <==> search::solves(solution, n, ds),
{
    lemma_canonical_is_key(ds);
    lemma_key_layouts(canonical(ds), ds, n);
}

/// A key has the layouts of its numbers.
proof fn lemma_key_layouts(key: Seq<Demand>, ds: Seq<Demand>, n: nat)
    requires
        is_key_of(key, ds),
    ensures
        search::all_layouts(n, key) =~= search::all_layouts(n, ds),
{
    assert forall|m: Set<int>| search::all_layouts(n, key).contains(m)
        <==> search::all_layouts(n, ds).contains(m) by {
        lemma_key_met(key, ds, m);
    }
}

// ---------------------------------------------------------------------------
// Signatures
// ---------------------------------------------------------------------------

/// What a group is, whatever board it comes from: which squares it covers and what
/// the numbers say about them.
///
/// Squares, not indices: the unopened cells are renumbered on every move.
pub struct Signature {
    /// The group's squares, in its own order.
    pub cells: Vec<(usize, usize)>,
    /// The numbers, sorted, so that the same ones always make the same key.
    pub constraints: Vec<(Vec<usize>, usize)>,
}

/// A signature as a value.
#[verifier::ext_equal]
pub struct Key {
    pub cells: Seq<(usize, usize)>,
    pub numbers: Seq<Demand>,
}

impl View for Signature {
    type V = Key;

    open spec fn view(&self) -> Key {
        Key { cells: self.cells@, numbers: layouts::demands(self.constraints@) }
    }
}

/// The key of a group.
pub open spec fn key_for(component: Component, hidden_cells: Seq<(usize, usize)>) -> Key {
    Key {
        cells: Seq::new(
            component.cells@.len(),
            |i: int| hidden_cells[component.cells@[i] as int],
        ),
        numbers: canonical(layouts::demands(component.constraints@)),
    }
}

/// Describes a group by its squares and its numbers.
pub fn signature(component: &Component, hidden_cells: &Vec<(usize, usize)>) -> (key: Signature)
    requires
        forall|i: int|
            0 <= i < component.cells@.len() ==> (#[trigger] component.cells@[i])
                < hidden_cells@.len(),
    ensures
        key@ =~= key_for(*component, hidden_cells@),
{
    let mut cells: Vec<(usize, usize)> = Vec::new();
    for i in 0..component.cells.len()
        invariant
            forall|k: int|
                0 <= k < component.cells@.len() ==> (#[trigger] component.cells@[k])
                    < hidden_cells@.len(),
            cells@.len() == i,
            forall|k: int|
                0 <= k < i ==> #[trigger] cells@[k] == hidden_cells@[component.cells@[k] as int],
    {
        assert(component.cells@[i as int] < hidden_cells@.len());
        cells.push(hidden_cells[component.cells[i]]);
    }
    let ghost ds = layouts::demands(component.constraints@);
    let ghost mut middle: Seq<Demand> = Seq::empty();
    let mut constraints: Vec<(Vec<usize>, usize)> = Vec::new();
    assert(layouts::demands(constraints@) =~= middle);
    for i in 0..component.constraints.len()
        invariant
            ds == layouts::demands(component.constraints@),
            in_order(layouts::demands(constraints@)),
            middle.len() == i,
            forall|k: int|
                #![trigger middle[k]]
                0 <= k < i ==> middle[k].mines == ds[k].mines && middle[k].cells.to_multiset()
                    == ds[k].cells.to_multiset() && rising(middle[k].cells),
            layouts::demands(constraints@).to_multiset() =~= middle.to_multiset(),
    {
        let sorted: Vec<usize> = sort_cells(&component.constraints[i].0);
        let constraint: (Vec<usize>, usize) = (sorted, component.constraints[i].1);
        let ghost new = demand_of(constraint);
        insert_sorted(&mut constraints, constraint);
        proof {
            to_multiset_build(middle, new);
            middle = middle.push(new);
        }
    }
    let key = Signature { cells, constraints };
    proof {
        let numbers = key@.numbers;
        assert(same_numbers(middle, ds));
        numbers.to_multiset_ensures();
        middle.to_multiset_ensures();
        assert forall|i: int| 0 <= i < numbers.len() implies rising((#[trigger] numbers[i]).cells) by {
            assert(numbers.contains(numbers[i]));
            assert(middle.to_multiset().count(numbers[i]) > 0);
            assert(middle.contains(numbers[i]));
            let k = choose|k: int| 0 <= k < middle.len() && middle[k] == numbers[i];
            assert(rising(middle[k].cells));
        }
        lemma_key_is_canonical(numbers, ds);
    }
    key
}

// ---------------------------------------------------------------------------
// How much an entry weighs
// ---------------------------------------------------------------------------

/// The first `i` rows: their entries and what each row costs.
pub open spec fn rows_weight(rows: Seq<Vec<u64>>, i: int) -> nat
    decreases i,
{
    if i <= 0 {
        0
    } else {
        rows_weight(rows, i - 1) + rows[i - 1]@.len() * 8 + 24
    }
}

/// Rough heap cost of a solution.
pub open spec fn solution_weight(solution: ComponentSolution) -> nat {
    solution.ways@.len() * 8 + rows_weight(
        solution.cell_ways@,
        solution.cell_ways@.len() as int,
    )
}

/// The first `i` numbers: their cells and what each costs.
pub open spec fn numbers_weight(numbers: Seq<Demand>, i: int) -> nat
    decreases i,
{
    if i <= 0 {
        0
    } else {
        numbers_weight(numbers, i - 1) + numbers[i - 1].cells.len() * 2 + 8
    }
}

/// Rough heap cost of a key.
pub open spec fn key_weight(key: Key) -> nat {
    key.cells.len() * 4 + numbers_weight(key.numbers, key.numbers.len() as int)
}

impl ComponentSolution {
    /// Rough heap cost, for the cache's size accounting.
    fn weight(&self) -> (size: usize)
        ensures
            size == capped::capped(solution_weight(*self)),
    {
        let mut size: usize = capped::scaled(self.ways.len(), 8, 0);
        for i in 0..self.cell_ways.len()
            invariant
                size == capped::capped(
                    self.ways@.len() * 8 + rows_weight(self.cell_ways@, i as int),
                ),
        {
            size = size.saturating_add(capped::scaled(self.cell_ways[i].len(), 8, 24));
        }
        size
    }

    /// The same counts again.
    pub fn copy(&self) -> (solution: Self)
        ensures
            solution.ways@ == self.ways@,
            solution.cell_ways@.len() == self.cell_ways@.len(),
            forall|c: int|
                0 <= c < self.cell_ways@.len() ==> (#[trigger] solution.cell_ways@[c])@
                    == self.cell_ways@[c]@,
    {
        let mut rows: Vec<Vec<u64>> = Vec::new();
        for c in 0..self.cell_ways.len()
            invariant
                rows@.len() == c,
                forall|k: int| 0 <= k < c ==> (#[trigger] rows@[k])@ == self.cell_ways@[k]@,
        {
            rows.push(copy_row(&self.cell_ways[c]));
        }
        ComponentSolution { ways: copy_row(&self.ways), cell_ways: rows }
    }
}

fn copy_row(row: &Vec<u64>) -> (copy: Vec<u64>)
    ensures
        copy@ == row@,
{
    let mut copy: Vec<u64> = Vec::new();
    for i in 0..row.len()
        invariant
            copy@ == row@.take(i as int),
    {
        copy.push(row[i]);
        assert(copy@ =~= row@.take(i + 1));
    }
    assert(row@.take(row@.len() as int) =~= row@);
    copy
}

impl Signature {
    /// Rough heap cost of keeping this key, for the cache's size accounting.
    fn weight(&self) -> (size: usize)
        ensures
            size == capped::capped(key_weight(self@)),
    {
        let mut size: usize = capped::scaled(self.cells.len(), 4, 0);
        for i in 0..self.constraints.len()
            invariant
                size == capped::capped(
                    self.cells@.len() * 4 + numbers_weight(
                        layouts::demands(self.constraints@),
                        i as int,
                    ),
                ),
        {
            size = size.saturating_add(capped::scaled(self.constraints[i].0.len(), 2, 8));
        }
        size
    }

    /// Whether two keys are the same.
    fn equals(&self, other: &Signature) -> (equal: bool)
        ensures
            equal == (self@ == other@),
    {
        if self.cells.len() != other.cells.len() || self.constraints.len()
            != other.constraints.len() {
            assert(self@.cells.len() != other@.cells.len() || self@.numbers.len()
                != other@.numbers.len());
            return false;
        }
        for i in 0..self.cells.len()
            invariant
                self.cells@.len() == other.cells@.len(),
                forall|k: int| 0 <= k < i ==> #[trigger] self.cells@[k] == other.cells@[k],
        {
            if self.cells[i].0 != other.cells[i].0 || self.cells[i].1 != other.cells[i].1 {
                assert(self@.cells[i as int] != other@.cells[i as int]);
                return false;
            }
        }
        for i in 0..self.constraints.len()
            invariant
                self.constraints@.len() == other.constraints@.len(),
                forall|k: int|
                    0 <= k < i ==> demand_of(#[trigger] self.constraints@[k]) == demand_of(
                        other.constraints@[k],
                    ),
        {
            if self.constraints[i].1 != other.constraints[i].1 || !lists_equal(
                &self.constraints[i].0,
                &other.constraints[i].0,
            ) {
                assert(self@.numbers[i as int] != other@.numbers[i as int]);
                return false;
            }
        }
        assert(self@.cells =~= other@.cells);
        assert(self@.numbers =~= other@.numbers) by {
            assert forall|k: int| 0 <= k < self@.numbers.len() implies self@.numbers[k]
                == other@.numbers[k] by {
                assert(demand_of(self.constraints@[k]) == demand_of(other.constraints@[k]));
            }
        }
        true
    }
}

// ---------------------------------------------------------------------------
// The cache
// ---------------------------------------------------------------------------

/// Roughly 8 MB of solutions. Past this the cache is emptied rather than evicted one
/// by one: entries stop being useful once the board has moved on.
pub const MAX_BYTES: usize = 8_388_608;

/// Group solutions kept from one board to the next.
pub struct SolutionCache {
    entries: Vec<(Signature, ComponentSolution)>,
    /// Rough heap bytes held.
    bytes: usize,
    hits: u32,
    misses: u32,
}

impl SolutionCache {
    /// Every entry solves its key, and no key occurs twice.
    pub closed spec fn wf(self) -> bool {
        &&& forall|i: int|
            0 <= i < self.entries@.len() ==> search::solves(
                (#[trigger] self.entries@[i]).1,
                self.entries@[i].0@.cells.len(),
                self.entries@[i].0@.numbers,
            )
        &&& forall|i: int, j: int|
            0 <= i < j < self.entries@.len() ==> (#[trigger] self.entries@[i]).0@ != (
            #[trigger] self.entries@[j]).0@
    }

    /// The keys held.
    pub closed spec fn keys(self) -> Set<Key> {
        Set::new(
            |key: Key|
                exists|i: int| 0 <= i < self.entries@.len() && (#[trigger] self.entries@[i]).0@ == key,
        )
    }

    /// The bytes accounted for.
    pub closed spec fn size(self) -> nat {
        self.bytes as nat
    }

    /// Lookups that found something, and lookups that did not.
    pub closed spec fn tally(self) -> (u32, u32) {
        (self.hits, self.misses)
    }

    /// Looks a solution up.
    pub fn get(&mut self, signature: &Signature) -> (found: Option<ComponentSolution>)
        requires
            old(self).wf(),
        ensures
            final(self).wf(),
            final(self).keys() == old(self).keys(),
            final(self).size() == old(self).size(),
            found is Some <==> old(self).keys().contains(signature@),
            found matches Some(solution) ==> search::solves(
                solution,
                signature@.cells.len(),
                signature@.numbers,
            ),
            final(self).tally() == if found is Some {
                (old(self).tally().0.wrapping_add(1), old(self).tally().1)
            } else {
                (old(self).tally().0, old(self).tally().1.wrapping_add(1))
            },
    {
        match self.position(signature) {
            Some(i) => {
                self.hits = self.hits.wrapping_add(1);
                let solution: ComponentSolution = self.entries[i].1.copy();
                assert(self.entries@[i as int].0@ == signature@);
                assert(search::solves(
                    self.entries@[i as int].1,
                    signature@.cells.len(),
                    signature@.numbers,
                ));
                Some(solution)
            },
            None => {
                self.misses = self.misses.wrapping_add(1);
                None
            },
        }
    }

    /// Where a key is held.
    fn position(&self, signature: &Signature) -> (at: Option<usize>)
        ensures
            at matches Some(i) ==> i < self.entries@.len() && self.entries@[i as int].0@
                == signature@,
            at is None ==> forall|i: int|
                0 <= i < self.entries@.len() ==> (#[trigger] self.entries@[i]).0@ != signature@,
    {
        for i in 0..self.entries.len()
            invariant
                forall|k: int|
                    0 <= k < i ==> (#[trigger] self.entries@[k]).0@ != signature@,
        {
            if self.entries[i].0.equals(signature) {
                return Some(i);
            }
        }
        None
    }

    /// Keeps a solution. The cache is emptied first where it would grow too large.
    pub fn insert(&mut self, signature: Signature, solution: ComponentSolution)
        requires
            old(self).wf(),
            search::solves(solution, signature@.cells.len(), signature@.numbers),
        ensures
            final(self).wf(),
            final(self).tally() == old(self).tally(),
            ({
                let cost = capped::capped(key_weight(signature@) + solution_weight(solution));
                if old(self).size() + cost > MAX_BYTES {
                    &&& final(self).keys() == Set::<Key>::empty().insert(signature@)
                    &&& final(self).size() == cost
                } else {
                    &&& final(self).keys() == old(self).keys().insert(signature@)
                    &&& final(self).size() == if old(self).keys().contains(signature@) {
                        old(self).size()
                    } else {
                        old(self).size() + cost
                    }
                }
            }),
    {
        let cost: usize = signature.weight().saturating_add(solution.weight());
        if self.bytes.saturating_add(cost) > MAX_BYTES {
            self.entries.clear();
            self.bytes = 0;
        }
        let ghost start = *self;
        let ghost key = signature@;
        match self.position(&signature) {
            Some(i) => {
                self.entries.set(i, (signature, solution));
                proof {
                    assert forall|a: int, b: int|
                        0 <= a < b < self.entries@.len() implies (#[trigger] self.entries@[a]).0@
                        != (#[trigger] self.entries@[b]).0@ by {
                        assert(start.entries@[a].0@ != start.entries@[b].0@);
                    }
                    assert(self.keys() =~= start.keys().insert(key)) by {
                        assert forall|k: Key| self.keys().contains(k) <==> start.keys().insert(
                            key,
                        ).contains(k) by {
                            if start.keys().contains(k) {
                                let x = choose|x: int|
                                    0 <= x < start.entries@.len() && (
                                    #[trigger] start.entries@[x]).0@ == k;
                                assert(self.entries@[x].0@ == k);
                            }
                            if self.keys().contains(k) {
                                let x = choose|x: int|
                                    0 <= x < self.entries@.len() && (
                                    #[trigger] self.entries@[x]).0@ == k;
                                assert(start.entries@[x].0@ == k);
                            }
                            if k == key {
                                assert(self.entries@[i as int].0@ == k);
                            }
                        }
                    }
                    assert(start.keys().contains(key)) by {
                        assert(start.entries@[i as int].0@ == key);
                    }
                }
            },
            None => {
                self.entries.push((signature, solution));
                self.bytes = self.bytes.saturating_add(cost);
                proof {
                    let len = start.entries@.len() as int;
                    assert(self.entries@[len].0@ == key);
                    assert forall|a: int, b: int|
                        0 <= a < b < self.entries@.len() implies (#[trigger] self.entries@[a]).0@
                        != (#[trigger] self.entries@[b]).0@ by {
                        assert(self.entries@[a] == start.entries@[a]);
                        if b < len {
                            assert(self.entries@[b] == start.entries@[b]);
                        }
                    }
                    assert forall|a: int| 0 <= a < self.entries@.len() implies search::solves(
                        (#[trigger] self.entries@[a]).1,
                        self.entries@[a].0@.cells.len(),
                        self.entries@[a].0@.numbers,
                    ) by {
                        if a < len {
                            assert(self.entries@[a] == start.entries@[a]);
                        }
                    }
                    assert(self.keys() =~= start.keys().insert(key)) by {
                        assert forall|k: Key| self.keys().contains(k) <==> start.keys().insert(
                            key,
                        ).contains(k) by {
                            if start.keys().contains(k) {
                                let x = choose|x: int|
                                    0 <= x < start.entries@.len() && (
                                    #[trigger] start.entries@[x]).0@ == k;
                                assert(self.entries@[x] == start.entries@[x]);
                            }
                            if self.keys().contains(k) && k != key {
                                let x = choose|x: int|
                                    0 <= x < self.entries@.len() && (
                                    #[trigger] self.entries@[x]).0@ == k;
                                assert(self.entries@[x] == start.entries@[x]);
                            }
                        }
                    }
                }
            },
        }
        proof {
            if start.entries@.len() == 0 {
                assert(start.keys() =~= Set::<Key>::empty());
            }
        }
    }

    /// How many solutions were found in the cache, and how many had to be computed.
    pub fn counts(&self) -> (counts: (u32, u32))
        ensures
            counts == self.tally(),
    {
        (self.hits, self.misses)
    }
}

impl Default for SolutionCache {
    fn default() -> (cache: Self)
        ensures
            cache.wf(),
            cache.keys() == Set::<Key>::empty(),
            cache.size() == 0,
            cache.tally() == (0u32, 0u32),
    {
        let cache = SolutionCache { entries: Vec::new(), bytes: 0, hits: 0, misses: 0 };
        assert(cache.keys() =~= Set::<Key>::empty());
        cache
    }
}

} // verus!
