//! What the samples add up to, over everything that can be drawn.
//!
//! A draw settles the number of mines on the border first, each as likely as the
//! others, and then the cells, each choice of that many as likely as the others. So the
//! weight of a sample, averaged over the draws with so many mines, has to come to the
//! number of whole layouts with so many mines on the border; and what it adds to a cell,
//! to the number of those that put a mine there.

use vstd::prelude::*;
use vstd::set_lib::*;
use crate::counting;
use crate::layouts;
use crate::probability::combine;
use crate::probability::monte_carlo;
use crate::probability::propagate;
use crate::probability::setup::SimSetup;
use crate::probability::slices;

verus! {

/// What a function comes to over the members of a set.
pub open spec fn sum_over(sets: Set<Set<int>>, f: spec_fn(Set<int>) -> nat) -> nat
    decreases sets.len(),
    when sets.finite()
{
    if sets.len() == 0 {
        0
    } else {
        let m = sets.choose();
        f(m) + sum_over(sets.remove(m), f)
    }
}

/// Everything that can be drawn with `k` mines on the border.
pub open spec fn draws_of(setup: SimSetup, k: nat) -> Set<Set<int>> {
    layouts::with_mines(layouts::subsets(monte_carlo::border_cells(setup)), k)
}

/// What a draw adds to the weight of the samples.
pub open spec fn added(setup: SimSetup) -> spec_fn(Set<int>) -> nat {
    |m: Set<int>|
        if monte_carlo::acceptable(setup, m) {
            monte_carlo::sample_weight(setup, m) * monte_carlo::scale(setup)
        } else {
            0
        }
}

/// What a draw adds to a cell.
pub open spec fn added_to(setup: SimSetup, c: int) -> spec_fn(Set<int>) -> nat {
    |m: Set<int>|
        if monte_carlo::acceptable(setup, m) {
            monte_carlo::sample_share(setup, m, c)
        } else {
            0
        }
}

/// The layouts of a problem with `k` mines on the border.
pub open spec fn layouts_of(setup: SimSetup, k: nat) -> Set<Set<int>> {
    combine::setup_layouts(setup).filter(
        |g: Set<int>| g.intersect(monte_carlo::border_cells(setup)).len() == k,
    )
}

/// The interior.
spec fn inside(setup: SimSetup) -> Set<int> {
    layouts::first_cells(setup.hidden_cells@.len()).difference(monte_carlo::border_cells(setup))
}

/// The layouts of the interior that complete a sample.
spec fn placed_inside(setup: SimSetup, m: Set<int>) -> Set<Set<int>> {
    layouts::with_mines(layouts::subsets(inside(setup)), monte_carlo::left_over(setup, m))
}

/// The whole layouts with a sample's mines on the border.
spec fn completed(setup: SimSetup, m: Set<int>) -> Set<Set<int>> {
    slices::slice(combine::setup_layouts(setup), monte_carlo::border_cells(setup), m)
}

spec fn put_on(m: Set<int>) -> spec_fn(Set<int>) -> Set<int> {
    |x: Set<int>| m.union(x)
}

/// The whole layouts that have a sample's mines on the border come of placing the mines
/// left over in the interior.
proof fn lemma_completed(setup: SimSetup, m: Set<int>)
    requires
        setup.wf(),
        setup.hidden_cells@.len() <= usize::MAX,
        monte_carlo::acceptable(setup, m),
    ensures
        placed_inside(setup, m).finite(),
        placed_inside(setup, m).map(put_on(m)) == completed(setup, m),
        vstd::relations::injective_on(put_on(m), placed_inside(setup, m)),
        placed_inside(setup, m).len() == monte_carlo::completions(setup, m),
        inside(setup).finite(),
        inside(setup).len() == monte_carlo::interior_len(setup),
{
    let n = setup.hidden_cells@.len();
    let ds = layouts::demands(setup.constraints@);
    let said = monte_carlo::border_cells(setup);
    let inside = layouts::first_cells(n).difference(said);
    let k = monte_carlo::left_over(setup, m);
    let all = combine::setup_layouts(setup);
    let here = slices::slice(all, said, m);
    let rest = layouts::with_mines(layouts::subsets(inside), k);
    monte_carlo::lemma_border(setup, propagate::listed(said, n as int));
    monte_carlo::lemma_interior(setup, combine::interior_of(setup));
    layouts::lemma_cell_set_len(combine::interior_of(setup), n);
    layouts::lemma_first_cells(n);
    lemma_set_subset_finite(layouts::first_cells(n), inside);
    counting::lemma_subsets_count(inside, k);
    let put = put_on(m);
    layouts::lemma_subsets_finite(inside);
    assert forall|x: Set<int>| #[trigger] rest.contains(x) implies here.contains(put(x))
        && put(x).difference(m) =~= x by {
        assert(layouts::subsets(inside).contains(x));
        assert(x.finite());
        assert(m.disjoint(x)) by {
            assert forall|c: int| !(m.contains(c) && x.contains(c)) by {
                if m.contains(c) {
                    assert(said.contains(c));
                }
                if x.contains(c) {
                    assert(inside.contains(c));
                }
            }
        }
        lemma_set_disjoint_lens(m, x);
        assert(put(x).intersect(said) =~= m) by {
            assert forall|c: int| put(x).intersect(said).contains(c) <==> m.contains(c) by {
                if x.contains(c) {
                    assert(inside.contains(c));
                }
            }
        }
        assert forall|i: int| 0 <= i < ds.len() implies layouts::met(#[trigger] ds[i], put(x)) by {
            let cells = ds[i].cells;
            assert forall|j: int| 0 <= j < cells.len() implies (m.contains(
                #[trigger] cells[j] as int,
            ) <==> put(x).contains(cells[j] as int)) by {
                assert(layouts::cell_set(cells).contains(cells[j] as int));
                assert(said.contains(cells[j] as int));
                if x.contains(cells[j] as int) {
                    assert(inside.contains(cells[j] as int));
                }
            }
            layouts::lemma_mines_among_agree(cells, m, put(x));
            assert(layouts::met(ds[i], m));
        }
        assert(put(x).subset_of(layouts::first_cells(n))) by {
            assert forall|c: int| put(x).contains(c) implies layouts::first_cells(n).contains(
                c,
            ) by {
                if x.contains(c) {
                    assert(inside.contains(c));
                } else {
                    assert(said.contains(c));
                }
            }
        }
        assert(layouts::layouts_over(layouts::first_cells(n), ds).contains(put(x)));
    }
    assert(rest.map(put) =~= here) by {
        assert forall|g: Set<int>| here.contains(g) implies rest.map(put).contains(g) by {
            let x = g.intersect(inside);
            assert(g.intersect(said) == m);
            assert(g.subset_of(layouts::first_cells(n)));
            assert(put(x) =~= g) by {
                assert forall|c: int| put(x).contains(c) <==> g.contains(c) by {
                    assert(g.intersect(said).contains(c) <==> m.contains(c));
                    if g.contains(c) {
                        assert(layouts::first_cells(n).contains(c));
                    }
                }
            }
            lemma_set_subset_finite(inside, x);
            assert(m.disjoint(x)) by {
                assert forall|c: int| !(m.contains(c) && x.contains(c)) by {
                    if m.contains(c) {
                        assert(said.contains(c));
                    }
                }
            }
            lemma_set_disjoint_lens(m, x);
            assert(rest.contains(x));
        }
    }
    assert(vstd::relations::injective_on(put, rest)) by {
        assert forall|a: Set<int>, b: Set<int>|
            rest.contains(a) && rest.contains(b) && #[trigger] put(a) == #[trigger] put(
                b,
            ) implies a == b by {
            assert(put(a).difference(m) =~= a);
            assert(put(b).difference(m) =~= b);
        }
    }
}

/// How many whole layouts a sample stands for: those of the problem that have its mines
/// on the border.
pub proof fn law_completions_are_counted(setup: SimSetup, m: Set<int>)
    requires
        setup.wf(),
        setup.hidden_cells@.len() <= usize::MAX,
        monte_carlo::acceptable(setup, m),
    ensures
        slices::slice(combine::setup_layouts(setup), monte_carlo::border_cells(setup), m).len()
            == monte_carlo::completions(setup, m),
{
    lemma_completed(setup, m);
    lemma_map_size(placed_inside(setup, m), completed(setup, m), put_on(m));
}

/// A sum that counts some of its members, each with the same amount.
proof fn lemma_sum_counts(
    sets: Set<Set<int>>,
    f: spec_fn(Set<int>) -> nat,
    some: Set<Set<int>>,
    amount: nat,
)
    requires
        sets.finite(),
        some.subset_of(sets),
        forall|m: Set<int>|
            sets.contains(m) ==> #[trigger] f(m) == if some.contains(m) {
                amount
            } else {
                0
            },
    ensures
        some.finite(),
        sum_over(sets, f) == some.len() * amount,
    decreases sets.len(),
{
    lemma_set_subset_finite(sets, some);
    if sets.len() == 0 {
        assert(some =~= Set::empty());
    } else {
        let m = sets.choose();
        let rest = some.remove(m);
        lemma_sum_counts(sets.remove(m), f, rest, amount);
        assert(f(m) == if some.contains(m) {
            amount
        } else {
            0
        });
        if some.contains(m) {
            let n = some.len();
            assert((n - 1) * amount + amount == n * amount) by (nonlinear_arith);
        } else {
            assert(rest =~= some);
        }
    }
}

/// A family whose members fall into slices of one size.
proof fn lemma_equal_slices(family: Set<Set<int>>, fixed: Set<int>, keys: Set<Set<int>>, size: nat)
    requires
        family.finite(),
        keys.finite(),
        forall|g: Set<int>| #[trigger] family.contains(g) ==> keys.contains(g.intersect(fixed)),
        forall|m: Set<int>| #[trigger]
            keys.contains(m) ==> slices::slice(family, fixed, m).len() == size,
    ensures
        family.len() == keys.len() * size,
    decreases keys.len(),
{
    if keys.len() == 0 {
        assert(family =~= Set::empty()) by {
            assert forall|g: Set<int>| !family.contains(g) by {
                if family.contains(g) {
                    assert(keys.contains(g.intersect(fixed)));
                }
            }
        }
    } else {
        let m = keys.choose();
        let here = slices::slice(family, fixed, m);
        let rest = family.difference(here);
        lemma_set_subset_finite(family, here);
        lemma_set_subset_finite(family, rest);
        assert forall|g: Set<int>| #[trigger] rest.contains(g) implies keys.remove(m).contains(
            g.intersect(fixed),
        ) by {
            assert(family.contains(g));
        }
        assert forall|x: Set<int>| #[trigger] keys.remove(m).contains(x) implies slices::slice(
            rest,
            fixed,
            x,
        ).len() == size by {
            assert(keys.contains(x));
            assert(slices::slice(rest, fixed, x) =~= slices::slice(family, fixed, x));
        }
        lemma_equal_slices(rest, fixed, keys.remove(m), size);
        assert(here.disjoint(rest));
        lemma_set_disjoint_lens(here, rest);
        assert(here.union(rest) =~= family);
        let n = keys.len();
        assert((n - 1) * size + size == n * size) by (nonlinear_arith);
    }
}

/// The samples with `k` mines.
spec fn samples_of(setup: SimSetup, k: nat) -> Set<Set<int>> {
    draws_of(setup, k).filter(|m: Set<int>| monte_carlo::acceptable(setup, m))
}

/// What a layout of the problem has on the border is a sample.
proof fn lemma_border_part(setup: SimSetup, g: Set<int>, k: nat)
    requires
        setup.wf(),
        setup.hidden_cells@.len() <= usize::MAX,
        layouts_of(setup, k).contains(g),
    ensures
        samples_of(setup, k).contains(g.intersect(monte_carlo::border_cells(setup))),
        monte_carlo::fewest_mines(setup) <= k <= monte_carlo::most_mines(setup),
        g.finite(),
{
    let n = setup.hidden_cells@.len();
    let said = monte_carlo::border_cells(setup);
    let ds = layouts::demands(setup.constraints@);
    let m = g.intersect(said);
    let x = g.difference(said);
    monte_carlo::lemma_border(setup, propagate::listed(said, n as int));
    monte_carlo::lemma_interior(setup, combine::interior_of(setup));
    layouts::lemma_cell_set_len(combine::interior_of(setup), n);
    layouts::lemma_first_cells(n);
    assert(g.subset_of(layouts::first_cells(n)));
    lemma_set_subset_finite(layouts::first_cells(n), g);
    assert(m.disjoint(x));
    lemma_set_disjoint_lens(m, x);
    assert(m.union(x) =~= g);
    assert(x.subset_of(inside(setup)));
    lemma_set_subset_finite(layouts::first_cells(n), inside(setup));
    lemma_len_subset(x, inside(setup));
    lemma_len_subset(m, said);
    assert forall|i: int| 0 <= i < ds.len() implies layouts::met(#[trigger] ds[i], m) by {
        let cells = ds[i].cells;
        assert forall|j: int| 0 <= j < cells.len() implies (g.contains(
            #[trigger] cells[j] as int,
        ) <==> m.contains(cells[j] as int)) by {
            assert(layouts::cell_set(cells).contains(cells[j] as int));
            assert(said.contains(cells[j] as int));
        }
        layouts::lemma_mines_among_agree(cells, g, m);
        assert(layouts::met(ds[i], g));
    }
    assert(layouts::subsets(said).contains(m));
    assert(monte_carlo::acceptable(setup, m));
}

/// Choosing one first: `k` times the ways of choosing `k`.
proof fn lemma_choose_one_first(n: nat, k: nat)
    requires
        0 < k <= n,
    ensures
        k * counting::binom(n, k) == n * counting::binom((n - 1) as nat, (k - 1) as nat),
{
    let a = counting::binom((n - 1) as nat, k);
    let b = counting::binom((n - 1) as nat, (k - 1) as nat);
    counting::lemma_binom_step((n - 1) as nat, (k - 1) as nat);
    assert(a * k == b * (n - k));
    assert(k * (a + b) == n * b) by (nonlinear_arith)
        requires
            a * k == b * (n - k),
    ;
}

/// The sets of samples and layouts are finite.
proof fn lemma_finite(setup: SimSetup, k: nat)
    requires
        setup.wf(),
        setup.hidden_cells@.len() <= usize::MAX,
    ensures
        draws_of(setup, k).finite(),
        draws_of(setup, k).len() == counting::binom(monte_carlo::border_cells(setup).len(), k),
        samples_of(setup, k).finite(),
        combine::setup_layouts(setup).finite(),
        layouts_of(setup, k).finite(),
{
    let n = setup.hidden_cells@.len();
    let said = monte_carlo::border_cells(setup);
    monte_carlo::lemma_border(setup, propagate::listed(said, n as int));
    counting::lemma_subsets_count(said, k);
    lemma_set_subset_finite(draws_of(setup, k), samples_of(setup, k));
    layouts::lemma_first_cells(n);
    layouts::lemma_subsets_finite(layouts::first_cells(n));
    assert(combine::setup_layouts(setup).subset_of(layouts::subsets(layouts::first_cells(n))));
    lemma_set_subset_finite(
        layouts::subsets(layouts::first_cells(n)),
        combine::setup_layouts(setup),
    );
    lemma_set_subset_finite(combine::setup_layouts(setup), layouts_of(setup, k));
}

/// The layouts of a sample, among those with as many mines on the border.
proof fn lemma_slices_of(setup: SimSetup, k: nat, m: Set<int>)
    requires
        samples_of(setup, k).contains(m),
    ensures
        slices::slice(layouts_of(setup, k), monte_carlo::border_cells(setup), m) == completed(
            setup,
            m,
        ),
{
    assert(slices::slice(layouts_of(setup, k), monte_carlo::border_cells(setup), m) =~= completed(
        setup,
        m,
    ));
}

/// Over everything that can be drawn with `k` mines on the border, the weight comes on
/// average to the number of layouts with `k` mines there: the sum over the draws is that
/// number, times the number of the draws.
pub proof fn law_weights_average_to_the_layouts(setup: SimSetup, k: nat)
    requires
        setup.wf(),
        setup.hidden_cells@.len() <= usize::MAX,
    ensures
        draws_of(setup, k).finite(),
        sum_over(draws_of(setup, k), added(setup)) == draws_of(setup, k).len() * layouts_of(
            setup,
            k,
        ).len() * monte_carlo::scale(setup),
{
    let said = monte_carlo::border_cells(setup);
    let some = samples_of(setup, k);
    let family = layouts_of(setup, k);
    let spread = counting::binom(said.len(), k);
    let size = counting::binom(
        monte_carlo::interior_len(setup),
        propagate::less(setup.mines_to_place as nat, k),
    );
    let f = monte_carlo::scale(setup);
    lemma_finite(setup, k);
    assert forall|m: Set<int>| draws_of(setup, k).contains(m) implies #[trigger] added(setup)(m)
        == if some.contains(m) {
        spread * size * f
    } else {
        0
    } by {
        assert(m.len() == k);
    }
    lemma_sum_counts(draws_of(setup, k), added(setup), some, spread * size * f);
    assert forall|g: Set<int>| #[trigger] family.contains(g) implies some.contains(
        g.intersect(said),
    ) by {
        lemma_border_part(setup, g, k);
    }
    assert forall|m: Set<int>| #[trigger] some.contains(m) implies slices::slice(
        family,
        said,
        m,
    ).len() == size by {
        assert(draws_of(setup, k).contains(m));
        law_completions_are_counted(setup, m);
        lemma_slices_of(setup, k, m);
    }
    lemma_equal_slices(family, said, some, size);
    let s = some.len();
    assert(s * (spread * size * f) == spread * (s * size) * f) by (nonlinear_arith);
}

/// Over everything that can be drawn with `k` mines on the border, what is added to a
/// cell comes on average to the number of layouts with `k` mines there that put a mine on
/// the cell.
pub proof fn law_shares_average_to_the_layouts(setup: SimSetup, k: nat, c: int)
    requires
        setup.wf(),
        setup.hidden_cells@.len() <= usize::MAX,
        0 <= c < setup.hidden_cells@.len(),
    ensures
        draws_of(setup, k).finite(),
        sum_over(draws_of(setup, k), added_to(setup, c)) == draws_of(setup, k).len()
            * layouts::holding(layouts_of(setup, k), c).len() * monte_carlo::scale(setup),
{
    let n = setup.hidden_cells@.len();
    let said = monte_carlo::border_cells(setup);
    let spread = counting::binom(said.len(), k);
    let left = propagate::less(setup.mines_to_place as nat, k);
    let room = monte_carlo::interior_len(setup);
    let size = counting::binom(room, left);
    let f = monte_carlo::scale(setup);
    let family = layouts::holding(layouts_of(setup, k), c);
    lemma_finite(setup, k);
    lemma_set_subset_finite(layouts_of(setup, k), family);
    if said.contains(c) {
        let some = layouts::holding(samples_of(setup, k), c);
        lemma_set_subset_finite(samples_of(setup, k), some);
        assert forall|m: Set<int>| draws_of(setup, k).contains(m) implies #[trigger] added_to(
            setup,
            c,
        )(m) == if some.contains(m) {
            spread * size * f
        } else {
            0
        } by {
            assert(m.len() == k);
        }
        lemma_sum_counts(draws_of(setup, k), added_to(setup, c), some, spread * size * f);
        assert forall|g: Set<int>| #[trigger] family.contains(g) implies some.contains(
            g.intersect(said),
        ) by {
            lemma_border_part(setup, g, k);
        }
        assert forall|m: Set<int>| #[trigger] some.contains(m) implies slices::slice(
            family,
            said,
            m,
        ).len() == size by {
            assert(draws_of(setup, k).contains(m));
            law_completions_are_counted(setup, m);
            assert(slices::slice(family, said, m) =~= completed(setup, m)) by {
                assert forall|g: Set<int>| completed(setup, m).contains(g) implies g.contains(c) by {
                    assert(g.intersect(said).contains(c));
                }
            }
        }
        lemma_equal_slices(family, said, some, size);
        let s = some.len();
        assert(s * (spread * size * f) == spread * (s * size) * f) by (nonlinear_arith);
    } else {
        let some = samples_of(setup, k);
        let ways = if left == 0 {
            0
        } else {
            counting::binom((room - 1) as nat, (left - 1) as nat)
        };
        assert forall|m: Set<int>| draws_of(setup, k).contains(m) implies #[trigger] added_to(
            setup,
            c,
        )(m) == if some.contains(m) {
            spread * size * left
        } else {
            0
        } by {
            assert(m.len() == k);
        }
        lemma_sum_counts(draws_of(setup, k), added_to(setup, c), some, spread * size * left);
        assert forall|g: Set<int>| #[trigger] family.contains(g) implies some.contains(
            g.intersect(said),
        ) by {
            lemma_border_part(setup, g, k);
        }
        assert(layouts::first_cells(n).contains(c));
        assert forall|m: Set<int>| #[trigger] some.contains(m) implies slices::slice(
            family,
            said,
            m,
        ).len() == ways by {
            assert(draws_of(setup, k).contains(m));
            lemma_completed(setup, m);
            lemma_completed_holding(setup, m, c);
            assert(slices::slice(family, said, m) =~= layouts::holding(completed(setup, m), c));
        }
        lemma_equal_slices(family, said, some, ways);
        let s = some.len();
        monte_carlo::lemma_interior(setup, combine::interior_of(setup));
        layouts::lemma_cell_set_len(combine::interior_of(setup), n);
        assert(inside(setup).contains(c));
        layouts::lemma_first_cells(n);
        lemma_set_subset_finite(layouts::first_cells(n), inside(setup));
        assert(room > 0);
        if left > room {
            if s > 0 {
                assert(some.len() != 0);
                assert(some.contains(some.choose()));
                let m = some.choose();
                assert(draws_of(setup, k).contains(m));
                assert(monte_carlo::acceptable(setup, m));
            }
        } else {
            if left > 0 {
                lemma_choose_one_first(room, left);
            } else {
                assert(size * left == 0) by (nonlinear_arith)
                    requires
                        left == 0,
                ;
                assert(ways * f == 0) by (nonlinear_arith)
                    requires
                        ways == 0,
                ;
            }
            assert(left * size == ways * f) by (nonlinear_arith)
                requires
                    left > 0 ==> left * size == f * ways,
                    left == 0 ==> ways == 0,
            ;
        }
        assert(s * (spread * size * left) == spread * (s * ways) * f) by (nonlinear_arith)
            requires
                s == 0 || left * size == ways * f,
        ;
    }
}

/// How many of a sample's layouts put a mine on a cell of the interior.
proof fn lemma_completed_holding(setup: SimSetup, m: Set<int>, c: int)
    requires
        setup.wf(),
        setup.hidden_cells@.len() <= usize::MAX,
        monte_carlo::acceptable(setup, m),
        inside(setup).contains(c),
    ensures
        layouts::holding(completed(setup, m), c).len() == if monte_carlo::left_over(setup, m) == 0 {
            0
        } else {
            counting::binom(
                (monte_carlo::interior_len(setup) - 1) as nat,
                (monte_carlo::left_over(setup, m) - 1) as nat,
            )
        },
{
    let rest = placed_inside(setup, m);
    let with = layouts::holding(rest, c);
    let here = layouts::holding(completed(setup, m), c);
    let left = monte_carlo::left_over(setup, m);
    let put = put_on(m);
    lemma_completed(setup, m);
    lemma_set_subset_finite(rest, with);
    assert(!m.contains(c));
    assert(with.map(put) =~= here) by {
        assert forall|g: Set<int>| here.contains(g) implies with.map(put).contains(g) by {
            assert(rest.map(put).contains(g));
            let x = choose|x: Set<int>| rest.contains(x) && put(x) == g;
            assert(x.contains(c));
            assert(with.contains(x));
        }
        assert forall|g: Set<int>| with.map(put).contains(g) implies here.contains(g) by {
            let x = choose|x: Set<int>| with.contains(x) && put(x) == g;
            assert(rest.contains(x));
            assert(rest.map(put).contains(g));
        }
    }
    assert(vstd::relations::injective_on(put, with)) by {
        assert forall|a: Set<int>, b: Set<int>|
            with.contains(a) && with.contains(b) && #[trigger] put(a) == #[trigger] put(
                b,
            ) implies a == b by {
            assert(rest.contains(a) && rest.contains(b));
        }
    }
    lemma_map_size(with, here, put);
    if left == 0 {
        assert(with =~= Set::empty()) by {
            assert forall|x: Set<int>| !with.contains(x) by {
                if with.contains(x) {
                    assert(layouts::subsets(inside(setup)).contains(x));
                    lemma_set_subset_finite(inside(setup), x);
                    assert(x =~= Set::empty());
                }
            }
        }
    } else {
        counting::lemma_holding_count(inside(setup), c, left);
        counting::lemma_subsets_count(inside(setup).remove(c), (left - 1) as nat);
    }
}

/// The layouts with fewer than `k` mines on the border, counted by their number there.
pub open spec fn counted_below(setup: SimSetup, k: nat) -> nat
    decreases k,
{
    if k == 0 {
        0
    } else {
        counted_below(setup, (k - 1) as nat) + layouts_of(setup, (k - 1) as nat).len()
    }
}

pub open spec fn held_below(setup: SimSetup, c: int, k: nat) -> nat
    decreases k,
{
    if k == 0 {
        0
    } else {
        held_below(setup, c, (k - 1) as nat) + layouts::holding(
            layouts_of(setup, (k - 1) as nat),
            c,
        ).len()
    }
}

/// The layouts of a family with fewer than `k` mines on the border.
spec fn below(setup: SimSetup, family: Set<Set<int>>, k: nat) -> Set<Set<int>> {
    family.filter(|g: Set<int>| g.intersect(monte_carlo::border_cells(setup)).len() < k)
}

proof fn lemma_counted_below(setup: SimSetup, c: int, k: nat)
    requires
        setup.wf(),
        setup.hidden_cells@.len() <= usize::MAX,
    ensures
        counted_below(setup, k) == below(setup, combine::setup_layouts(setup), k).len(),
        held_below(setup, c, k) == below(
            setup,
            layouts::holding(combine::setup_layouts(setup), c),
            k,
        ).len(),
    decreases k,
{
    let all = combine::setup_layouts(setup);
    let with = layouts::holding(all, c);
    lemma_finite(setup, k);
    lemma_set_subset_finite(all, with);
    lemma_set_subset_finite(all, below(setup, all, k));
    lemma_set_subset_finite(all, below(setup, with, k));
    if k == 0 {
        assert(below(setup, all, k) =~= Set::empty());
        assert(below(setup, with, k) =~= Set::empty());
    } else {
        let j = (k - 1) as nat;
        lemma_counted_below(setup, c, j);
        lemma_set_subset_finite(all, below(setup, all, j));
        lemma_set_subset_finite(all, below(setup, with, j));
        lemma_finite(setup, j);
        lemma_set_subset_finite(all, layouts::holding(layouts_of(setup, j), c));
        assert(below(setup, all, j).disjoint(layouts_of(setup, j)));
        lemma_set_disjoint_lens(below(setup, all, j), layouts_of(setup, j));
        assert(below(setup, all, k) =~= below(setup, all, j).union(layouts_of(setup, j)));
        let there = layouts::holding(layouts_of(setup, j), c);
        assert(below(setup, with, j).disjoint(there));
        lemma_set_disjoint_lens(below(setup, with, j), there);
        assert(below(setup, with, k) =~= below(setup, with, j).union(there));
    }
}

/// Sampling is not biased. The draws take every number of mines that a layout can have on
/// the border, and the averages over the draws with each of them add up to the number of
/// all layouts, and for each cell to the number of those that put a mine on it.
pub proof fn law_sampling_is_unbiased(setup: SimSetup, c: int)
    requires
        setup.wf(),
        setup.hidden_cells@.len() <= usize::MAX,
        0 <= c < setup.hidden_cells@.len(),
    ensures
        forall|k: nat|
            #![trigger draws_of(setup, k)]
            {
                &&& draws_of(setup, k).finite()
                &&& sum_over(draws_of(setup, k), added(setup)) == draws_of(setup, k).len()
                    * layouts_of(setup, k).len() * monte_carlo::scale(setup)
                &&& sum_over(draws_of(setup, k), added_to(setup, c)) == draws_of(setup, k).len()
                    * layouts::holding(layouts_of(setup, k), c).len() * monte_carlo::scale(setup)
            },
        forall|k: nat|
            #![trigger layouts_of(setup, k)]
            !(monte_carlo::fewest_mines(setup) <= k <= monte_carlo::most_mines(setup))
                ==> layouts_of(setup, k) == Set::<Set<int>>::empty(),
        counted_below(setup, monte_carlo::most_mines(setup) + 1) == combine::setup_layouts(
            setup,
        ).len(),
        held_below(setup, c, monte_carlo::most_mines(setup) + 1) == combine::held(setup, c),
{
    let all = combine::setup_layouts(setup);
    let with = layouts::holding(all, c);
    let top = monte_carlo::most_mines(setup) + 1;
    assert forall|k: nat| #![trigger draws_of(setup, k)]
        {
            &&& draws_of(setup, k).finite()
            &&& sum_over(draws_of(setup, k), added(setup)) == draws_of(setup, k).len()
                * layouts_of(setup, k).len() * monte_carlo::scale(setup)
            &&& sum_over(draws_of(setup, k), added_to(setup, c)) == draws_of(setup, k).len()
                * layouts::holding(layouts_of(setup, k), c).len() * monte_carlo::scale(setup)
        } by {
        law_weights_average_to_the_layouts(setup, k);
        law_shares_average_to_the_layouts(setup, k, c);
    }
    assert forall|k: nat| #![trigger layouts_of(setup, k)]
        !(monte_carlo::fewest_mines(setup) <= k <= monte_carlo::most_mines(setup)) implies
        layouts_of(setup, k) == Set::<Set<int>>::empty() by {
        assert forall|g: Set<int>| !layouts_of(setup, k).contains(g) by {
            if layouts_of(setup, k).contains(g) {
                lemma_border_part(setup, g, k);
            }
        }
        assert(layouts_of(setup, k) =~= Set::<Set<int>>::empty());
    }
    lemma_counted_below(setup, c, top);
    assert forall|g: Set<int>| all.contains(g) implies below(setup, all, top).contains(g) by {
        let k = g.intersect(monte_carlo::border_cells(setup)).len();
        assert(layouts_of(setup, k).contains(g));
        lemma_border_part(setup, g, k);
    }
    assert(below(setup, all, top) =~= all);
    assert(below(setup, with, top) =~= with);
}

} // verus!
