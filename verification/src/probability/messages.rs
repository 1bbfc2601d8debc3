//! What the messages of belief propagation mean.
//!
//! A number tells each of its cells how likely the other cells hold what is missing, and a
//! cell weighs what all its numbers tell it. Both are computed in fixed point, rounding
//! down; the laws here say what is computed, up to that rounding.

use vstd::prelude::*;
use vstd::seq_lib::*;
use vstd::set_lib::*;
use crate::layouts;
use crate::layouts::Demand;
use crate::probability::fpga_bp;
use crate::probability::fpga_bp::FlatGraph;
use crate::probability::propagate;
use crate::probability::unbiased;

verus! {

/// Sixteen fractional bits for each of `k` factors.
pub open spec fn unit_to(k: nat) -> int
    decreases k,
{
    if k == 0 {
        1
    } else {
        65536 * unit_to((k - 1) as nat)
    }
}

/// The product of all entries of a list.
pub open spec fn product_of(list: Seq<int>) -> int
    decreases list.len(),
{
    if list.len() == 0 {
        1
    } else {
        product_of(list.drop_last()) * list.last()
    }
}

/// Whether all entries lie between zero and one.
pub open spec fn shares(list: Seq<int>) -> bool {
    forall|i: int| 0 <= i < list.len() ==> 0 <= #[trigger] list[i] <= 65536
}

/// What all numbers that count a cell tell it if it is a mine.
pub open spec fn mine_messages(graph: FlatGraph, beliefs: Seq<int>, c: int) -> Seq<int> {
    Seq::new(
        graph.x_factor_count@[c] as nat,
        |k: int|
            graph.mine_message(
                beliefs,
                graph.x_factors@[c * 8 + k] as int,
                graph.x_factor_local@[c * 8 + k] as int,
            ),
    )
}

/// What they tell it if it is safe.
pub open spec fn safe_messages(graph: FlatGraph, beliefs: Seq<int>, c: int) -> Seq<int> {
    Seq::new(
        graph.x_factor_count@[c] as nat,
        |k: int|
            graph.safe_message(
                beliefs,
                graph.x_factors@[c * 8 + k] as int,
                graph.x_factor_local@[c * 8 + k] as int,
            ),
    )
}

// ---------------------------------------------------------------------------
// Products
// ---------------------------------------------------------------------------

/// A product in fixed point.
proof fn lemma_fx_product(a: int, b: int)
    requires
        0 <= a <= 65536,
        0 <= b <= 65536,
    ensures
        0 <= fpga_bp::fx_product(a, b) <= a,
        fpga_bp::fx_product(a, b) <= b,
        fpga_bp::fx_product(a, b) * 65536 <= a * b < (fpga_bp::fx_product(a, b) + 1) * 65536,
        b == 0 || a == 0 ==> fpga_bp::fx_product(a, b) == 0,
        b == 65536 ==> fpga_bp::fx_product(a, b) == a,
        a == 65536 ==> fpga_bp::fx_product(a, b) == b,
{
    assert(0 <= a * b <= a * 65536) by (nonlinear_arith)
        requires
            0 <= a,
            0 <= b <= 65536,
    ;
    assert(a * b <= b * 65536) by (nonlinear_arith)
        requires
            0 <= b,
            0 <= a <= 65536,
    ;
    if a == 0 || b == 0 {
        assert(a * b == 0) by (nonlinear_arith)
            requires
                a == 0 || b == 0,
        ;
    }
}

proof fn lemma_unit_positive(k: nat)
    ensures
        unit_to(k) > 0,
    decreases k,
{
    if k > 0 {
        lemma_unit_positive((k - 1) as nat);
    }
}

/// One more factor.
proof fn lemma_one_factor(product: int, exact: int, k: int, unit: int, m: int, next: int)
    requires
        0 <= m <= 65536,
        0 <= k,
        0 < unit,
        0 <= product,
        product * unit <= exact <= (product + k) * unit,
        next * 65536 <= product * m < (next + 1) * 65536,
    ensures
        next * (65536 * unit) <= exact * m <= (next + k + 1) * (65536 * unit),
{
    assert(next * (65536 * unit) <= exact * m) by {
        assert(next * 65536 * unit <= product * m * unit) by (nonlinear_arith)
            requires
                next * 65536 <= product * m,
                0 < unit,
        ;
        assert(product * unit * m <= exact * m) by (nonlinear_arith)
            requires
                product * unit <= exact,
                0 <= m,
        ;
        assert(product * m * unit == product * unit * m) by (nonlinear_arith);
        assert(next * 65536 * unit == next * (65536 * unit)) by (nonlinear_arith);
    }
    assert(exact * m <= (next + k + 1) * (65536 * unit)) by {
        assert(exact * m <= (product + k) * unit * m) by (nonlinear_arith)
            requires
                exact <= (product + k) * unit,
                0 <= m,
        ;
        assert((product + k) * unit * m == product * m * unit + k * m * unit) by (nonlinear_arith);
        assert(product * m * unit <= (next + 1) * 65536 * unit) by (nonlinear_arith)
            requires
                product * m < (next + 1) * 65536,
                0 < unit,
        ;
        assert(k * m * unit <= k * 65536 * unit) by (nonlinear_arith)
            requires
                m <= 65536,
                0 <= k,
                0 < unit,
        ;
        assert((next + 1) * 65536 * unit + k * 65536 * unit == (next + k + 1) * (65536 * unit))
            by (nonlinear_arith);
    }
}

/// Messages lie between zero and one.
proof fn lemma_messages_are_shares(graph: FlatGraph, beliefs: Seq<int>, ci: int, j: int)
    requires
        graph.wf(),
        0 <= ci < graph.n_constraints,
    ensures
        0 <= graph.mine_message(beliefs, ci, j) <= 65536,
        0 <= graph.safe_message(beliefs, ci, j) <= 65536,
{
    let k = graph.c_required@[ci] as int;
    let d = graph.c_degree@[ci] as int;
    assert(0 <= k <= 8);
    lemma_dist_is_share(graph.cells(ci), beliefs, j, d, k);
    if k > 0 {
        lemma_dist_is_share(graph.cells(ci), beliefs, j, d, k - 1);
    }
}

proof fn lemma_dist_is_share(cells: Seq<usize>, beliefs: Seq<int>, j: int, i: int, s: int)
    requires
        0 <= s <= 8,
    ensures
        fpga_bp::others_dist(cells, beliefs, j, i).len() == 9,
        0 <= fpga_bp::others_dist(cells, beliefs, j, i)[s] <= 65536,
    decreases i,
{
    if i > 0 {
        lemma_dist_is_share(cells, beliefs, j, i - 1, s);
    }
}

/// The messages that a cell gets are those of numbers, and lie between zero and one.
proof fn lemma_message_lists(graph: FlatGraph, beliefs: Seq<int>, c: int)
    requires
        graph.wf(),
        0 <= c < graph.n_cells,
    ensures
        shares(mine_messages(graph, beliefs, c)),
        shares(safe_messages(graph, beliefs, c)),
        mine_messages(graph, beliefs, c).len() <= 8,
{
    assert forall|k: int| 0 <= k < graph.x_factor_count@[c] implies {
        &&& 0 <= #[trigger] mine_messages(graph, beliefs, c)[k] <= 65536
        &&& 0 <= safe_messages(graph, beliefs, c)[k] <= 65536
    } by {
        assert(graph.x_factors@[c * 8 + k] < graph.n_constraints);
        lemma_messages_are_shares(
            graph,
            beliefs,
            graph.x_factors@[c * 8 + k] as int,
            graph.x_factor_local@[c * 8 + k] as int,
        );
    }
    let safe = safe_messages(graph, beliefs, c);
    assert forall|k: int| 0 <= k < safe.len() implies 0 <= #[trigger] safe[k] <= 65536 by {
        assert(0 <= mine_messages(graph, beliefs, c)[k]);
    }
}

/// A cell's two products, up to place `k`.
proof fn lemma_products(graph: FlatGraph, prior: int, beliefs: Seq<int>, c: int, k: int)
    requires
        graph.wf(),
        0 <= c < graph.n_cells,
        0 <= prior <= 65536,
        0 <= k <= graph.x_factor_count@[c],
    ensures
        ({
            let mine = graph.mine_product(prior, beliefs, c, k);
            let safe = graph.safe_product(prior, beliefs, c, k);
            let mines = mine_messages(graph, beliefs, c).take(k);
            let safes = safe_messages(graph, beliefs, c).take(k);
            &&& 0 <= mine <= prior
            &&& 0 <= safe <= 65536 - prior
            &&& mine * unit_to(k as nat) <= prior * product_of(mines) <= (mine + k) * unit_to(
                k as nat,
            )
            &&& safe * unit_to(k as nat) <= (65536 - prior) * product_of(safes) <= (safe + k)
                * unit_to(k as nat)
        }),
    decreases k,
{
    let all = mine_messages(graph, beliefs, c);
    let others = safe_messages(graph, beliefs, c);
    if k > 0 {
        lemma_products(graph, prior, beliefs, c, k - 1);
        lemma_message_lists(graph, beliefs, c);
        let mine = graph.mine_product(prior, beliefs, c, k - 1);
        let safe = graph.safe_product(prior, beliefs, c, k - 1);
        let m = all[k - 1];
        let s = others[k - 1];
        let unit = unit_to((k - 1) as nat);
        lemma_unit_positive((k - 1) as nat);
        lemma_fx_product(mine, m);
        lemma_fx_product(safe, s);
        assert(all.take(k).drop_last() =~= all.take(k - 1));
        assert(others.take(k).drop_last() =~= others.take(k - 1));
        let a = product_of(all.take(k - 1));
        let b = product_of(others.take(k - 1));
        lemma_one_factor(mine, prior * a, k - 1, unit, m, fpga_bp::fx_product(mine, m));
        lemma_one_factor(
            safe,
            (65536 - prior) * b,
            k - 1,
            unit,
            s,
            fpga_bp::fx_product(safe, s),
        );
        assert(prior * a * m == prior * (a * m)) by (nonlinear_arith);
        assert((65536 - prior) * b * s == (65536 - prior) * (b * s)) by (nonlinear_arith);
    } else {
        assert(all.take(0) =~= Seq::empty());
        assert(others.take(0) =~= Seq::empty());
        assert(product_of(all.take(0)) == 1);
        assert(product_of(others.take(0)) == 1);
    }
}

/// Every message counts: a cell weighs its prior with the messages of all the numbers that
/// count it. Up to one unit of rounding for each message, its two products are the exact
/// ones.
pub proof fn law_every_message_counts(graph: FlatGraph, prior: int, beliefs: Seq<int>, c: int)
    requires
        graph.wf(),
        0 <= c < graph.n_cells,
        0 <= prior <= 65536,
    ensures
        ({
            let count = graph.x_factor_count@[c] as int;
            let unit = unit_to(count as nat);
            let mine = graph.mine_product(prior, beliefs, c, count);
            let safe = graph.safe_product(prior, beliefs, c, count);
            let mines = prior * product_of(mine_messages(graph, beliefs, c));
            let safes = (65536 - prior) * product_of(safe_messages(graph, beliefs, c));
            &&& mine * unit <= mines <= (mine + count) * unit
            &&& safe * unit <= safes <= (safe + count) * unit
        }),
{
    let count = graph.x_factor_count@[c] as int;
    lemma_products(graph, prior, beliefs, c, count);
    let all = mine_messages(graph, beliefs, c);
    let others = safe_messages(graph, beliefs, c);
    assert(all.take(count) =~= all);
    assert(others.take(count) =~= others);
}

/// A belief is the mine's part of both products, rounded down. Without numbers, or where
/// both products vanish, it is the prior.
pub proof fn law_beliefs_are_normalised(graph: FlatGraph, prior: int, beliefs: Seq<int>, c: int)
    requires
        graph.wf(),
        0 <= c < graph.n_cells,
        0 <= prior <= 65536,
    ensures
        ({
            let count = graph.x_factor_count@[c] as int;
            let mine = graph.mine_product(prior, beliefs, c, count);
            let safe = graph.safe_product(prior, beliefs, c, count);
            let next = graph.next_belief(prior, beliefs, c);
            &&& 0 <= next <= 65536
            &&& count == 0 || mine + safe == 0 ==> next == prior
            &&& count > 0 && mine + safe > 0 ==> next * (mine + safe) <= mine * 65536 < (next + 1)
                * (mine + safe)
        }),
{
    let count = graph.x_factor_count@[c] as int;
    lemma_products(graph, prior, beliefs, c, count);
    let mine = graph.mine_product(prior, beliefs, c, count);
    let safe = graph.safe_product(prior, beliefs, c, count);
    let total = mine + safe;
    if total > 0 {
        let q = (mine * 65536) / total;
        vstd::arithmetic::div_mod::lemma_fundamental_div_mod(mine * 65536, total);
        vstd::arithmetic::div_mod::lemma_mod_bound(mine * 65536, total);
        let r = (mine * 65536) % total;
        assert(0 <= q <= 65536) by (nonlinear_arith)
            requires
                mine * 65536 == total * q + r,
                0 <= r < total,
                0 <= mine <= total,
                total > 0,
        ;
        assert(q * total <= mine * 65536 < (q + 1) * total) by (nonlinear_arith)
            requires
                mine * 65536 == total * q + r,
                0 <= r < total,
        ;
    }
}

/// A message of zero makes the product vanish.
proof fn lemma_vanishes(graph: FlatGraph, prior: int, beliefs: Seq<int>, c: int, k: int, upto: int)
    requires
        graph.wf(),
        0 <= c < graph.n_cells,
        0 <= prior <= 65536,
        0 <= k < upto <= graph.x_factor_count@[c],
    ensures
        mine_messages(graph, beliefs, c)[k] == 0 ==> graph.mine_product(prior, beliefs, c, upto)
            == 0,
        safe_messages(graph, beliefs, c)[k] == 0 ==> graph.safe_product(prior, beliefs, c, upto)
            == 0,
    decreases upto,
{
    lemma_products(graph, prior, beliefs, c, upto - 1);
    lemma_message_lists(graph, beliefs, c);
    let m = mine_messages(graph, beliefs, c)[upto - 1];
    let s = safe_messages(graph, beliefs, c)[upto - 1];
    assert(0 <= m <= 65536 && 0 <= s <= 65536);
    lemma_fx_product(graph.mine_product(prior, beliefs, c, upto - 1), m);
    lemma_fx_product(graph.safe_product(prior, beliefs, c, upto - 1), s);
    if k < upto - 1 {
        lemma_vanishes(graph, prior, beliefs, c, k, upto - 1);
    }
}

/// Any one number can decide, wherever in the cell's list it stands: where it tells the
/// cell that it cannot be a mine, the belief is zero, and where it tells it that it cannot
/// be safe, the belief is one; unless the other product vanishes too.
pub proof fn law_any_number_can_decide(
    graph: FlatGraph,
    prior: int,
    beliefs: Seq<int>,
    c: int,
    k: int,
)
    requires
        graph.wf(),
        0 <= c < graph.n_cells,
        0 <= prior <= 65536,
        0 <= k < graph.x_factor_count@[c],
    ensures
        ({
            let ci = graph.x_factors@[c * 8 + k] as int;
            let j = graph.x_factor_local@[c * 8 + k] as int;
            let count = graph.x_factor_count@[c] as int;
            let next = graph.next_belief(prior, beliefs, c);
            &&& graph.mine_message(beliefs, ci, j) == 0 && graph.safe_product(
                prior,
                beliefs,
                c,
                count,
            ) > 0 ==> next == 0
            &&& graph.safe_message(beliefs, ci, j) == 0 && graph.mine_product(
                prior,
                beliefs,
                c,
                count,
            ) > 0 ==> next == 65536
        }),
{
    let count = graph.x_factor_count@[c] as int;
    lemma_products(graph, prior, beliefs, c, count);
    lemma_vanishes(graph, prior, beliefs, c, k, count);
    let mine = graph.mine_product(prior, beliefs, c, count);
    if mine > 0 {
        vstd::arithmetic::div_mod::lemma_div_multiples_vanish(65536, mine);
        assert(mine * 65536 == 65536 * mine);
    }
}

/// The same entries in another order have the same product.
proof fn lemma_product_reordered(a: Seq<int>, b: Seq<int>)
    requires
        a.to_multiset() == b.to_multiset(),
    ensures
        product_of(a) == product_of(b),
    decreases a.len(),
{
    a.to_multiset_ensures();
    b.to_multiset_ensures();
    assert(a.len() == b.len());
    if a.len() > 0 {
        let x = a[a.len() - 1];
        assert(a.contains(x));
        assert(b.to_multiset().count(x) > 0);
        assert(b.contains(x));
        let j = choose|j: int| 0 <= j < b.len() && b[j] == x;
        assert(a.remove(a.len() - 1) =~= a.drop_last());
        to_multiset_remove(a, a.len() - 1);
        to_multiset_remove(b, j);
        lemma_product_reordered(a.drop_last(), b.remove(j));
        lemma_product_remove(b, j);
    }
}

proof fn lemma_product_remove(list: Seq<int>, j: int)
    requires
        0 <= j < list.len(),
    ensures
        product_of(list) == product_of(list.remove(j)) * list[j],
    decreases list.len(),
{
    if j == list.len() - 1 {
        assert(list.remove(j) =~= list.drop_last());
    } else {
        let less = list.drop_last();
        lemma_product_remove(less, j);
        assert(list.remove(j).drop_last() =~= less.remove(j));
        assert(list.remove(j).last() == list.last());
        let p = product_of(less.remove(j));
        let (x, y) = (list[j], list.last());
        assert(p * x * y == p * y * x) by (nonlinear_arith);
    }
}

/// The order in which a cell's numbers are listed does not matter, up to rounding: with the
/// same messages in another order, each product is the same but for a unit for each
/// message.
pub proof fn law_the_order_of_numbers_does_not_matter(
    a: FlatGraph,
    b: FlatGraph,
    prior: int,
    here: Seq<int>,
    there: Seq<int>,
    c: int,
    d: int,
)
    requires
        a.wf(),
        b.wf(),
        0 <= c < a.n_cells,
        0 <= d < b.n_cells,
        0 <= prior <= 65536,
        mine_messages(a, here, c).to_multiset() == mine_messages(b, there, d).to_multiset(),
        safe_messages(a, here, c).to_multiset() == safe_messages(b, there, d).to_multiset(),
    ensures
        ({
            let count = a.x_factor_count@[c] as int;
            &&& b.x_factor_count@[d] == count
            &&& -count <= a.mine_product(prior, here, c, count) - b.mine_product(
                prior,
                there,
                d,
                count,
            ) <= count
            &&& -count <= a.safe_product(prior, here, c, count) - b.safe_product(
                prior,
                there,
                d,
                count,
            ) <= count
        }),
{
    let count = a.x_factor_count@[c] as int;
    mine_messages(a, here, c).to_multiset_ensures();
    mine_messages(b, there, d).to_multiset_ensures();
    lemma_product_reordered(mine_messages(a, here, c), mine_messages(b, there, d));
    lemma_product_reordered(safe_messages(a, here, c), safe_messages(b, there, d));
    law_every_message_counts(a, prior, here, c);
    law_every_message_counts(b, prior, there, d);
    lemma_unit_positive(count as nat);
    let unit = unit_to(count as nat);
    lemma_near(
        a.mine_product(prior, here, c, count),
        b.mine_product(prior, there, d, count),
        count,
        unit,
    );
    lemma_near(
        a.safe_product(prior, here, c, count),
        b.safe_product(prior, there, d, count),
        count,
        unit,
    );
}

proof fn lemma_near(x: int, y: int, k: int, unit: int)
    requires
        unit > 0,
        x * unit <= (y + k) * unit,
        y * unit <= (x + k) * unit,
    ensures
        -k <= x - y <= k,
{
    assert(x <= y + k) by (nonlinear_arith)
        requires
            unit > 0,
            x * unit <= (y + k) * unit,
    ;
    assert(y <= x + k) by (nonlinear_arith)
        requires
            unit > 0,
            y * unit <= (x + k) * unit,
    ;
}

// ---------------------------------------------------------------------------
// Sums
// ---------------------------------------------------------------------------

/// A sum, without one of its members.
proof fn lemma_sum_remove(sets: Set<Set<int>>, f: spec_fn(Set<int>) -> nat, m: Set<int>)
    requires
        sets.finite(),
        sets.contains(m),
    ensures
        unbiased::sum_over(sets, f) == f(m) + unbiased::sum_over(sets.remove(m), f),
    decreases sets.len(),
{
    let x = sets.choose();
    if x != m {
        lemma_sum_remove(sets.remove(x), f, m);
        lemma_sum_remove(sets.remove(m), f, x);
        assert(sets.remove(m).remove(x) =~= sets.remove(x).remove(m));
    }
}

/// The sum over two families.
proof fn lemma_sum_union(a: Set<Set<int>>, b: Set<Set<int>>, f: spec_fn(Set<int>) -> nat)
    requires
        a.finite(),
        b.finite(),
        a.disjoint(b),
    ensures
        unbiased::sum_over(a.union(b), f) == unbiased::sum_over(a, f) + unbiased::sum_over(b, f),
    decreases a.len(),
{
    if a.len() == 0 {
        assert(a.union(b) =~= b);
    } else {
        let x = a.choose();
        assert(a.union(b).remove(x) =~= a.remove(x).union(b)) by {
            assert(!b.contains(x));
        }
        lemma_sum_remove(a.union(b), f, x);
        lemma_sum_remove(a, f, x);
        lemma_sum_union(a.remove(x), b, f);
    }
}

/// The sum over the image of a family, each member of which counts `factor` times as much.
proof fn lemma_sum_image(
    sets: Set<Set<int>>,
    f: spec_fn(Set<int>) -> nat,
    put: spec_fn(Set<int>) -> Set<int>,
    g: spec_fn(Set<int>) -> nat,
    factor: nat,
)
    requires
        sets.finite(),
        forall|a: Set<int>, b: Set<int>|
            sets.contains(a) && sets.contains(b) && #[trigger] put(a) == #[trigger] put(b) ==> a
                == b,
        forall|a: Set<int>| #[trigger] sets.contains(a) ==> g(put(a)) == f(a) * factor,
    ensures
        sets.map(put).finite(),
        unbiased::sum_over(sets.map(put), g) == unbiased::sum_over(sets, f) * factor,
    decreases sets.len(),
{
    sets.lemma_map_finite(put);
    if sets.len() == 0 {
        assert(sets.map(put) =~= Set::empty());
        assert(0 * factor == 0) by (nonlinear_arith);
    } else {
        let x = sets.choose();
        let rest = sets.remove(x);
        lemma_sum_image(rest, f, put, g, factor);
        assert(sets.map(put).remove(put(x)) =~= rest.map(put)) by {
            assert forall|y: Set<int>| sets.map(put).remove(put(x)).contains(y) <==> rest.map(
                put,
            ).contains(y) by {
                if sets.map(put).remove(put(x)).contains(y) {
                    let a = choose|a: Set<int>| sets.contains(a) && put(a) == y;
                    assert(rest.contains(a));
                }
                if rest.map(put).contains(y) {
                    let a = choose|a: Set<int>| rest.contains(a) && put(a) == y;
                    assert(sets.contains(a));
                    assert(sets.contains(x));
                }
            }
        }
        assert(sets.contains(x));
        assert(sets.map(put).contains(put(x)));
        lemma_sum_remove(sets.map(put), g, put(x));
        lemma_sum_remove(sets, f, x);
        let a = f(x);
        let b = unbiased::sum_over(rest, f);
        assert(a * factor + b * factor == (a + b) * factor) by (nonlinear_arith);
    }
}

// ---------------------------------------------------------------------------
// What a number tells a cell
// ---------------------------------------------------------------------------

/// The first `i` places but for place `j`.
pub open spec fn other_places(j: int, i: int) -> Set<int> {
    Set::new(|x: int| 0 <= x < i && x != j)
}

/// How many places these are.
pub open spec fn others_count(j: int, i: int) -> nat
    decreases i,
{
    if i <= 0 {
        0
    } else if i - 1 == j {
        others_count(j, i - 1)
    } else {
        others_count(j, i - 1) + 1
    }
}

/// How likely it is that of the cells at these places just those in `mines` are mines, if
/// each is one as likely as is believed, in units for each of them.
pub open spec fn layout_weight(
    cells: Seq<usize>,
    beliefs: Seq<int>,
    j: int,
    i: int,
    mines: Set<int>,
) -> nat
    decreases i,
{
    if i <= 0 {
        1
    } else if i - 1 == j {
        layout_weight(cells, beliefs, j, i - 1, mines)
    } else {
        layout_weight(cells, beliefs, j, i - 1, mines) * (if mines.contains(i - 1) {
            beliefs[cells[i - 1] as int] as nat
        } else {
            (65536 - beliefs[cells[i - 1] as int]) as nat
        })
    }
}

pub open spec fn weigh(cells: Seq<usize>, beliefs: Seq<int>, j: int, i: int) -> spec_fn(
    Set<int>,
) -> nat {
    |mines: Set<int>| layout_weight(cells, beliefs, j, i, mines)
}

/// The layouts of these places with `s` mines.
pub open spec fn layouts_with(j: int, i: int, s: nat) -> Set<Set<int>> {
    layouts::with_mines(layouts::subsets(other_places(j, i)), s)
}

/// How likely it is that just `s` of the cells at these places are mines: the sum over all
/// ways of choosing which.
pub open spec fn chance_of(cells: Seq<usize>, beliefs: Seq<int>, j: int, i: int, s: nat) -> nat {
    unbiased::sum_over(layouts_with(j, i, s), weigh(cells, beliefs, j, i))
}

proof fn lemma_places_finite(j: int, i: int, s: nat)
    requires
        0 <= i,
    ensures
        other_places(j, i).finite(),
        layouts_with(j, i, s).finite(),
{
    layouts::lemma_first_cells(i as nat);
    assert(other_places(j, i).subset_of(layouts::first_cells(i as nat)));
    lemma_set_subset_finite(layouts::first_cells(i as nat), other_places(j, i));
    layouts::lemma_subsets_finite(other_places(j, i));
    lemma_set_subset_finite(layouts::subsets(other_places(j, i)), layouts_with(j, i, s));
}

/// A weight depends on the mines below `i` alone.
proof fn lemma_weight_below(
    cells: Seq<usize>,
    beliefs: Seq<int>,
    j: int,
    i: int,
    a: Set<int>,
    b: Set<int>,
)
    requires
        forall|x: int| 0 <= x < i ==> (#[trigger] a.contains(x) <==> b.contains(x)),
    ensures
        layout_weight(cells, beliefs, j, i, a) == layout_weight(cells, beliefs, j, i, b),
    decreases i,
{
    if i > 0 {
        lemma_weight_below(cells, beliefs, j, i - 1, a, b);
        assert(a.contains(i - 1) <==> b.contains(i - 1));
    }
}

/// The layouts with one more place: it holds a mine or not.
proof fn lemma_one_more_place(j: int, i: int, s: nat)
    requires
        i > 0,
        i - 1 != j,
    ensures
        ({
            let put = |m: Set<int>| m.insert(i - 1);
            let without = layouts_with(j, i - 1, s);
            let with = if s == 0 {
                Set::<Set<int>>::empty()
            } else {
                layouts_with(j, i - 1, (s - 1) as nat).map(put)
            };
            &&& layouts_with(j, i, s) == without.union(with)
            &&& without.disjoint(with)
        }),
{
    let put = |m: Set<int>| m.insert(i - 1);
    let without = layouts_with(j, i - 1, s);
    let before = layouts_with(j, i - 1, (s - 1) as nat);
    let with = if s == 0 {
        Set::<Set<int>>::empty()
    } else {
        before.map(put)
    };
    let all = layouts_with(j, i, s);
    lemma_places_finite(j, i, s);
    lemma_places_finite(j, i - 1, s);
    assert forall|m: Set<int>| with.contains(m) implies all.contains(m) && m.contains(i - 1) by {
        let less = choose|less: Set<int>| before.contains(less) && put(less) == m;
        assert(layouts::subsets(other_places(j, i - 1)).contains(less));
        lemma_set_subset_finite(other_places(j, i - 1), less);
        assert(!less.contains(i - 1));
        assert(m.subset_of(other_places(j, i)));
    }
    assert forall|m: Set<int>| without.contains(m) implies all.contains(m) && !m.contains(i - 1) by {
        assert(layouts::subsets(other_places(j, i - 1)).contains(m));
        assert(m.subset_of(other_places(j, i)));
    }
    assert forall|m: Set<int>| all.contains(m) implies without.union(with).contains(m) by {
        assert(layouts::subsets(other_places(j, i)).contains(m));
        lemma_set_subset_finite(other_places(j, i), m);
        if m.contains(i - 1) {
            let less = m.remove(i - 1);
            assert(less.subset_of(other_places(j, i - 1)));
            assert(before.contains(less));
            assert(put(less) =~= m);
        } else {
            assert(m.subset_of(other_places(j, i - 1)));
        }
    }
    assert(all =~= without.union(with));
    assert(without.disjoint(with)) by {
        assert forall|m: Set<int>| !(without.contains(m) && with.contains(m)) by {}
    }
}

/// One more place: it holds a mine, and the others one less; or it does not.
proof fn lemma_chance_step(cells: Seq<usize>, beliefs: Seq<int>, j: int, i: int, s: nat)
    requires
        i > 0,
        i - 1 != j,
        0 <= beliefs[cells[i - 1] as int] <= 65536,
    ensures
        ({
            let p = beliefs[cells[i - 1] as int];
            chance_of(cells, beliefs, j, i, s) == chance_of(cells, beliefs, j, i - 1, s) * (65536
                - p) + (if s == 0 {
                0
            } else {
                chance_of(cells, beliefs, j, i - 1, (s - 1) as nat) * p
            })
        }),
{
    let p = beliefs[cells[i - 1] as int];
    let put = |m: Set<int>| m.insert(i - 1);
    let same = |m: Set<int>| m;
    let f = weigh(cells, beliefs, j, i - 1);
    let g = weigh(cells, beliefs, j, i);
    let without = layouts_with(j, i - 1, s);
    lemma_one_more_place(j, i, s);
    lemma_places_finite(j, i - 1, s);
    assert(without.map(same) =~= without) by {
        assert forall|m: Set<int>| without.contains(m) implies without.map(same).contains(m) by {
            assert(same(m) == m);
        }
    }
    assert forall|m: Set<int>| #[trigger] without.contains(m) implies g(same(m)) == f(m) * (
    (65536 - p) as nat) by {
        assert(layouts::subsets(other_places(j, i - 1)).contains(m));
        assert(!m.contains(i - 1));
    }
    lemma_sum_image(without, f, same, g, (65536 - p) as nat);
    if s == 0 {
        assert(layouts_with(j, i, s) =~= without);
    } else {
        let before = layouts_with(j, i - 1, (s - 1) as nat);
        lemma_places_finite(j, i - 1, (s - 1) as nat);
        assert forall|m: Set<int>| #[trigger] before.contains(m) implies g(put(m)) == f(m) * (
        p as nat) by {
            lemma_weight_below(cells, beliefs, j, i - 1, m.insert(i - 1), m);
        }
        assert forall|a: Set<int>, b: Set<int>|
            before.contains(a) && before.contains(b) && #[trigger] put(a) == #[trigger] put(
                b,
            ) implies a == b by {
            assert(layouts::subsets(other_places(j, i - 1)).contains(a));
            assert(layouts::subsets(other_places(j, i - 1)).contains(b));
            assert(put(a).remove(i - 1) =~= a);
            assert(put(b).remove(i - 1) =~= b);
        }
        lemma_sum_image(before, f, put, g, p as nat);
        lemma_sum_union(without, before.map(put), g);
    }
}

/// No places: no mine.
proof fn lemma_chance_start(cells: Seq<usize>, beliefs: Seq<int>, j: int, s: nat)
    ensures
        chance_of(cells, beliefs, j, 0, s) == if s == 0 {
            1nat
        } else {
            0nat
        },
{
    let all = layouts_with(j, 0, s);
    lemma_places_finite(j, 0, s);
    assert(other_places(j, 0) =~= Set::empty());
    if s == 0 {
        let one = Set::<Set<int>>::empty().insert(Set::empty());
        assert(all =~= one) by {
            assert forall|m: Set<int>| all.contains(m) <==> one.contains(m) by {
                if all.contains(m) {
                    assert(layouts::subsets(other_places(j, 0)).contains(m));
                    assert(m =~= Set::empty());
                }
            }
        }
        lemma_sum_remove(all, weigh(cells, beliefs, j, 0), Set::empty());
        assert(all.remove(Set::empty()) =~= Set::empty());
    } else {
        assert(all =~= Set::empty()) by {
            assert forall|m: Set<int>| !all.contains(m) by {
                if all.contains(m) {
                    assert(layouts::subsets(other_places(j, 0)).contains(m));
                    assert(m =~= Set::empty());
                }
            }
        }
    }
}

/// A step of the distribution in fixed point, against the exact one.
proof fn lemma_dist_step(
    x: int,
    y: int,
    p: int,
    exact_x: int,
    exact_y: int,
    n: int,
    unit: int,
    next: int,
)
    requires
        0 <= x <= 65536,
        0 <= y <= 65536,
        0 <= p <= 65536,
        0 <= n,
        unit > 0,
        x * unit <= exact_x <= (x + 2 * n) * unit,
        y * unit <= exact_y <= (y + 2 * n) * unit,
        next == fpga_bp::fx_sum(fpga_bp::fx_product(x, p), fpga_bp::fx_product(y, 65536 - p)),
    ensures
        next * (65536 * unit) <= exact_x * p + exact_y * (65536 - p) <= (next + 2 * (n + 1)) * (
        65536 * unit),
{
    let a = fpga_bp::fx_product(x, p);
    let b = fpga_bp::fx_product(y, 65536 - p);
    let q = 65536 - p;
    lemma_fx_product(x, p);
    lemma_fx_product(y, q);
    assert(a <= p && b <= q);
    assert(next == a + b);
    lemma_one_factor(x, exact_x, 2 * n, unit, p, a);
    lemma_one_factor(y, exact_y, 2 * n, unit, q, b);
    assert(exact_x * p <= (x + 2 * n) * unit * p) by (nonlinear_arith)
        requires
            exact_x <= (x + 2 * n) * unit,
            0 <= p,
    ;
    assert(exact_y * q <= (y + 2 * n) * unit * q) by (nonlinear_arith)
        requires
            exact_y <= (y + 2 * n) * unit,
            0 <= q,
    ;
    assert((x + 2 * n) * unit * p + (y + 2 * n) * unit * q == (x * p + y * q) * unit + 2 * n * (
    65536 * unit)) by (nonlinear_arith)
        requires
            p + q == 65536,
    ;
    assert((x * p + y * q) * unit <= (a + b + 2) * 65536 * unit) by (nonlinear_arith)
        requires
            x * p < (a + 1) * 65536,
            y * q < (b + 1) * 65536,
            unit > 0,
    ;
    assert((a + b + 2) * 65536 * unit + 2 * n * (65536 * unit) == (a + b + 2 * (n + 1)) * (65536
        * unit)) by (nonlinear_arith);
    assert(a * (65536 * unit) + b * (65536 * unit) == (a + b) * (65536 * unit)) by (nonlinear_arith);
}

/// The distribution that is computed is the one of the number of mines among the other
/// cells, each a mine as likely as is believed: up to two units of rounding for each of
/// them it is the sum over all ways of choosing which are mines.
pub proof fn law_the_distribution_sums_over_all_layouts(
    cells: Seq<usize>,
    beliefs: Seq<int>,
    j: int,
    i: int,
    s: nat,
)
    requires
        0 <= i <= cells.len(),
        s <= 8,
        forall|k: int| 0 <= k < i ==> 0 <= beliefs[#[trigger] cells[k] as int] <= 65536,
    ensures
        ({
            let n = others_count(j, i);
            let found = fpga_bp::others_dist(cells, beliefs, j, i)[s as int];
            let exact = chance_of(cells, beliefs, j, i, s) * 65536;
            found * unit_to(n) <= exact <= (found + 2 * n) * unit_to(n)
        }),
    decreases i,
{
    let n = others_count(j, i);
    if i == 0 {
        lemma_chance_start(cells, beliefs, j, s);
    } else {
        law_the_distribution_sums_over_all_layouts(cells, beliefs, j, i - 1, s);
        if i - 1 == j {
            assert(other_places(j, i) =~= other_places(j, i - 1));
            let f = weigh(cells, beliefs, j, i);
            let g = weigh(cells, beliefs, j, i - 1);
            assert(f =~= g) by {
                assert forall|m: Set<int>| #[trigger] f(m) == g(m) by {}
            }
        } else {
            let before = fpga_bp::others_dist(cells, beliefs, j, i - 1);
            let p = beliefs[cells[i - 1] as int];
            let unit = unit_to((n - 1) as nat);
            lemma_unit_positive((n - 1) as nat);
            lemma_chance_step(cells, beliefs, j, i, s);
            lemma_dist_is_share(cells, beliefs, j, i - 1, s as int);
            let y = before[s as int];
            let exact_y = chance_of(cells, beliefs, j, i - 1, s) as int * 65536;
            let next = fpga_bp::others_dist(cells, beliefs, j, i)[s as int];
            if s > 0 {
                law_the_distribution_sums_over_all_layouts(
                    cells,
                    beliefs,
                    j,
                    i - 1,
                    (s - 1) as nat,
                );
                lemma_dist_is_share(cells, beliefs, j, i - 1, s - 1);
                let x = before[s - 1];
                let exact_x = chance_of(cells, beliefs, j, i - 1, (s - 1) as nat) as int * 65536;
                lemma_dist_step(x, y, p, exact_x, exact_y, n - 1, unit, next);
                let (cx, cy) = (
                    chance_of(cells, beliefs, j, i - 1, (s - 1) as nat) as int,
                    chance_of(cells, beliefs, j, i - 1, s) as int,
                );
                assert((cx * 65536) * p + (cy * 65536) * (65536 - p) == (cy * (65536 - p) + cx * p)
                    * 65536) by (nonlinear_arith);
            } else {
                lemma_fx_product(0, p);
                lemma_dist_step(0, y, p, 0, exact_y, n - 1, unit, next);
                let cy = chance_of(cells, beliefs, j, i - 1, s) as int;
                assert((cy * 65536) * (65536 - p) == (cy * (65536 - p)) * 65536) by (nonlinear_arith);
                assert(0 * p == 0) by (nonlinear_arith);
            }
        }
    }
}

/// What a number tells a cell: how likely the other cells it counts hold one mine less than
/// it says, if the cell is a mine, and just as many, if it is not.
pub proof fn law_messages_say_how_likely_the_others_fit(
    graph: FlatGraph,
    beliefs: Seq<int>,
    ci: int,
    j: int,
)
    requires
        graph.wf(),
        0 <= ci < graph.n_constraints,
        0 <= j < graph.c_degree@[ci],
        beliefs.len() == graph.n_cells,
        shares(beliefs),
    ensures
        ({
            let cells = graph.cells(ci);
            let d = graph.c_degree@[ci] as int;
            let n = others_count(j, d);
            let need = graph.c_required@[ci] as int;
            let mine = graph.mine_message(beliefs, ci, j);
            let safe = graph.safe_message(beliefs, ci, j);
            &&& n == d - 1
            &&& need == 0 ==> mine == 0
            &&& need > 0 ==> mine * unit_to(n) <= chance_of(
                cells,
                beliefs,
                j,
                d,
                (need - 1) as nat,
            ) * 65536 <= (mine + 2 * n) * unit_to(n)
            &&& safe * unit_to(n) <= chance_of(cells, beliefs, j, d, need as nat) * 65536 <= (safe
                + 2 * n) * unit_to(n)
        }),
{
    let cells = graph.cells(ci);
    let d = graph.c_degree@[ci] as int;
    let need = graph.c_required@[ci] as int;
    assert(0 <= need <= 8);
    assert forall|k: int| 0 <= k < d implies 0 <= beliefs[#[trigger] cells[k] as int] <= 65536 by {
        assert(graph.cells(ci)[k] < graph.n_cells);
    }
    lemma_others_count(j, d);
    law_the_distribution_sums_over_all_layouts(cells, beliefs, j, d, need as nat);
    if need > 0 {
        law_the_distribution_sums_over_all_layouts(cells, beliefs, j, d, (need - 1) as nat);
    }
}

proof fn lemma_others_count(j: int, i: int)
    requires
        0 <= j,
        0 <= i,
    ensures
        others_count(j, i) == if j < i {
            i - 1
        } else {
            i
        },
    decreases i,
{
    if i > 0 {
        lemma_others_count(j, i - 1);
    }
}

// ---------------------------------------------------------------------------
// Which numbers a cell hears
// ---------------------------------------------------------------------------

/// A cell that stands in a number occurs there.
proof fn lemma_occurs_there(ds: Seq<Demand>, c: int, i: int, ci: int, j: int) -> (k: int)
    requires
        0 <= ci < i <= ds.len(),
        0 <= j < fpga_bp::at_most_degree(ds[ci].cells.len()),
        ds[ci].cells[j] == c,
    ensures
        0 <= k < fpga_bp::occurrences(ds, c, i).len(),
        fpga_bp::occurrences(ds, c, i)[k] == (ci, j),
    decreases i,
{
    let front = fpga_bp::occurrences(ds, c, i - 1);
    if ci < i - 1 {
        lemma_occurs_there(ds, c, i - 1, ci, j)
    } else {
        let k = lemma_stands_there(
            ds[ci].cells,
            c,
            ci,
            fpga_bp::at_most_degree(ds[ci].cells.len()) as int,
            j,
        );
        front.len() + k
    }
}

proof fn lemma_stands_there(cells: Seq<usize>, c: int, ci: int, upto: int, j: int) -> (k: int)
    requires
        0 <= j < upto <= cells.len(),
        cells[j] == c,
    ensures
        0 <= k < fpga_bp::row_occurrences(cells, c, ci, upto).len(),
        fpga_bp::row_occurrences(cells, c, ci, upto)[k] == (ci, j),
    decreases upto,
{
    if j < upto - 1 {
        lemma_stands_there(cells, c, ci, upto - 1, j)
    } else {
        fpga_bp::row_occurrences(cells, c, ci, upto - 1).len() as int
    }
}

/// A cell hears every number that counts it, and no other: each number of at most eight
/// cells is in the list of each of its cells, at its place, as long as no more than eight
/// count the cell.
pub proof fn law_a_cell_hears_every_number(
    graph: FlatGraph,
    ds: Seq<Demand>,
    n: nat,
    ci: int,
    j: int,
)
    requires
        propagate::proper_demands(ds, n),
        graph.lays_out_numbers(ds, n),
        graph.lays_out_cells(ds, n),
        0 <= ci < ds.len(),
        0 <= j < ds[ci].cells.len(),
        ds[ci].cells.len() <= 8,
        fpga_bp::occurrences(ds, ds[ci].cells[j] as int, ds.len() as int).len() <= 8,
    ensures
        ({
            let c = ds[ci].cells[j] as int;
            &&& graph.cells(ci) == ds[ci].cells
            &&& graph.c_required@[ci] == ds[ci].mines
            &&& exists|k: int|
                0 <= k < graph.x_factor_count@[c] && #[trigger] graph.x_factors@[c * 8 + k] == ci
                    && graph.x_factor_local@[c * 8 + k] == j
            &&& forall|k: int|
                0 <= k < graph.x_factor_count@[c] ==> ds[#[trigger] graph.x_factors@[c * 8
                    + k] as int].cells[graph.x_factor_local@[c * 8 + k] as int] == c
        }),
{
    let c = ds[ci].cells[j] as int;
    assert(layouts::distinct_below(ds[ci].cells, n));
    let all = fpga_bp::occurrences(ds, c, ds.len() as int);
    let k = lemma_occurs_there(ds, c, ds.len() as int, ci, j);
    assert(graph.x_factor_count@[c] == all.len());
    assert(all[k] == (ci, j));
    assert(graph.x_factors@[c * 8 + k] == ci);
    fpga_bp::lemma_occurrences(ds, c, ds.len() as int);
    assert forall|q: int| 0 <= q < graph.x_factor_count@[c] implies ds[
        #[trigger] graph.x_factors@[c * 8 + q] as int].cells[graph.x_factor_local@[c * 8
        + q] as int] == c by {
        let at = all[q];
        assert(graph.x_factors@[c * 8 + q] == at.0);
    }
    assert(graph.c_degree@[ci] == ds[ci].cells.len());
    assert(graph.cells(ci) =~= ds[ci].cells) by {
        assert forall|x: int| 0 <= x < ds[ci].cells.len() implies graph.cells(ci)[x]
            == ds[ci].cells[x] by {
            assert(graph.c_neighbors@[ci * 8 + x] == ds[ci].cells[x]);
        }
    }
}

} // verus!
