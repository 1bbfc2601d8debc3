//! How counts of layouts combine.
//!
//! A family of layouts is summed up by how many of its members use each number of
//! mines. Where two families live on disjoint cells, the counts of their combined
//! layouts are the convolution of the two.

use vstd::prelude::*;
use vstd::set_lib::*;
use crate::big_nat::BigNat;
use crate::layouts;

verus! {

// ---------------------------------------------------------------------------
// Counts by number of mines
// ---------------------------------------------------------------------------

/// The count for `k` mines; zero beyond the end of the list.
pub open spec fn coef(p: Seq<nat>, k: int) -> nat {
    if 0 <= k < p.len() {
        p[k]
    } else {
        0
    }
}

/// The first `i` terms of the convolution at `k`.
pub open spec fn conv_sum(a: Seq<nat>, b: Seq<nat>, k: int, i: int) -> nat
    decreases i,
{
    if i <= 0 {
        0
    } else {
        conv_sum(a, b, k, i - 1) + coef(a, i - 1) * coef(b, k - (i - 1))
    }
}

/// The convolution at `k`: over every way of splitting `k` in two.
pub open spec fn conv_at(a: Seq<nat>, b: Seq<nat>, k: int) -> nat {
    conv_sum(a, b, k, k + 1)
}

/// The convolution of two lists of counts.
pub open spec fn conv(a: Seq<nat>, b: Seq<nat>) -> Seq<nat> {
    if a.len() == 0 || b.len() == 0 {
        Seq::empty()
    } else {
        Seq::new((a.len() + b.len() - 1) as nat, |k: int| conv_at(a, b, k))
    }
}

/// Whether a list counts the members of a family by number of mines.
pub open spec fn counts(p: Seq<nat>, family: Set<Set<int>>) -> bool {
    forall|k: nat| #[trigger] coef(p, k as int) == layouts::with_mines(family, k).len()
}

/// Whether a list counts the members of a family with up to `top` mines.
pub open spec fn counts_to(p: Seq<nat>, family: Set<Set<int>>, top: nat) -> bool {
    forall|k: nat|
        k <= top ==> #[trigger] coef(p, k as int) == layouts::with_mines(family, k).len()
}

/// The members of two families, put together in every way.
pub open spec fn join(f: Set<Set<int>>, g: Set<Set<int>>) -> Set<Set<int>> {
    Set::new(|m: Set<int>| exists|a: Set<int>, b: Set<int>| #[trigger] makes(f, g, a, b, m))
}

/// Whether `m` is `a` of the first family and `b` of the second put together.
pub open spec fn makes(
    f: Set<Set<int>>,
    g: Set<Set<int>>,
    a: Set<int>,
    b: Set<int>,
    m: Set<int>,
) -> bool {
    f.contains(a) && g.contains(b) && m == a.union(b)
}

/// Whether a family lives on some cells.
pub open spec fn lives_on(family: Set<Set<int>>, dom: Set<int>) -> bool {
    family.subset_of(layouts::subsets(dom))
}

/// A member of a combined family falls apart again.
pub proof fn lemma_join_parts(f: Set<Set<int>>, g: Set<Set<int>>, d: Set<int>, e: Set<int>, m: Set<int>)
    requires
        lives_on(f, d),
        lives_on(g, e),
        d.disjoint(e),
    ensures
        join(f, g).contains(m) <==> f.contains(m.intersect(d)) && g.contains(m.intersect(e))
            && m.subset_of(d.union(e)),
{
    if join(f, g).contains(m) {
        let (a, b) = choose|a: Set<int>, b: Set<int>| #[trigger] makes(f, g, a, b, m);
        assert(layouts::subsets(d).contains(a) && layouts::subsets(e).contains(b));
        assert(m.intersect(d) =~= a) by {
            assert forall|c: int| m.intersect(d).contains(c) <==> a.contains(c) by {
                assert(!(d.contains(c) && e.contains(c)));
            }
        }
        assert(m.intersect(e) =~= b) by {
            assert forall|c: int| m.intersect(e).contains(c) <==> b.contains(c) by {
                assert(!(d.contains(c) && e.contains(c)));
            }
        }
    }
    if f.contains(m.intersect(d)) && g.contains(m.intersect(e)) && m.subset_of(d.union(e)) {
        assert(m =~= m.intersect(d).union(m.intersect(e)));
        assert(makes(f, g, m.intersect(d), m.intersect(e), m));
    }
}

/// Combined families live on both sets of cells.
pub proof fn lemma_join_lives(f: Set<Set<int>>, g: Set<Set<int>>, d: Set<int>, e: Set<int>)
    requires
        lives_on(f, d),
        lives_on(g, e),
        d.disjoint(e),
    ensures
        lives_on(join(f, g), d.union(e)),
{
    assert forall|m: Set<int>| #[trigger] join(f, g).contains(m) implies layouts::subsets(
        d.union(e),
    ).contains(m) by {
        lemma_join_parts(f, g, d, e, m);
    }
}

/// Two families combine in as many ways as they have pairs of members.
pub proof fn lemma_join_len(f: Set<Set<int>>, g: Set<Set<int>>, d: Set<int>, e: Set<int>)
    requires
        lives_on(f, d),
        lives_on(g, e),
        d.disjoint(e),
        f.finite(),
        g.finite(),
    ensures
        join(f, g).finite(),
        join(f, g).len() == f.len() * g.len(),
    decreases f.len(),
{
    let both = join(f, g);
    if f.len() == 0 {
        assert(f =~= Set::<Set<int>>::empty());
        assert(both =~= Set::<Set<int>>::empty());
        assert(0 * g.len() == 0) by (nonlinear_arith);
    } else {
        let a = f.choose();
        let rest = f.remove(a);
        lemma_join_len(rest, g, d, e);
        let put = |b: Set<int>| a.union(b);
        let one = g.map(put);
        assert(vstd::relations::injective_on(put, g)) by {
            assert forall|b: Set<int>, c: Set<int>|
                g.contains(b) && g.contains(c) && #[trigger] put(b) == #[trigger] put(
                    c,
                ) implies b == c by {
                assert(layouts::subsets(d).contains(a));
                assert(layouts::subsets(e).contains(b) && layouts::subsets(e).contains(c));
                assert(b =~= c) by {
                    assert forall|x: int| b.contains(x) <==> c.contains(x) by {
                        assert(put(b).contains(x) <==> put(c).contains(x));
                        assert(!(d.contains(x) && e.contains(x)));
                    }
                }
            }
        }
        lemma_map_size(g, one, put);
        assert(both =~= join(rest, g).union(one)) by {
            assert forall|m: Set<int>| both.contains(m) <==> join(rest, g).union(one).contains(
                m,
            ) by {
                if both.contains(m) {
                    let (x, y) = choose|x: Set<int>, y: Set<int>| #[trigger] makes(f, g, x, y, m);
                    if x == a {
                        assert(put(y) == m);
                    } else {
                        assert(makes(rest, g, x, y, m));
                    }
                }
                if join(rest, g).contains(m) {
                    let (x, y) = choose|x: Set<int>, y: Set<int>| #[trigger]
                        makes(rest, g, x, y, m);
                    assert(makes(f, g, x, y, m));
                }
                if one.contains(m) {
                    let y = choose|y: Set<int>| g.contains(y) && put(y) == m;
                    assert(makes(f, g, a, y, m));
                }
            }
        }
        assert(join(rest, g).disjoint(one)) by {
            assert forall|m: Set<int>| !(join(rest, g).contains(m) && one.contains(m)) by {
                if join(rest, g).contains(m) && one.contains(m) {
                    lemma_join_parts(rest, g, d, e, m);
                    let y = choose|y: Set<int>| g.contains(y) && put(y) == m;
                    assert(layouts::subsets(d).contains(a) && layouts::subsets(e).contains(y));
                    assert(m.intersect(d) =~= a) by {
                        assert forall|c: int| m.intersect(d).contains(c) <==> a.contains(c) by {
                            assert(!(d.contains(c) && e.contains(c)));
                        }
                    }
                }
            }
        }
        lemma_set_disjoint_lens(join(rest, g), one);
        let p = rest.len();
        let q = g.len();
        assert(p * q + q == (p + 1) * q) by (nonlinear_arith);
    }
}

/// The members of a combined family with `k` mines, fewer than `i` of them from the
/// first family.
spec fn split_below(
    f: Set<Set<int>>,
    g: Set<Set<int>>,
    d: Set<int>,
    k: nat,
    i: int,
) -> Set<Set<int>> {
    layouts::with_mines(join(f, g), k).filter(|m: Set<int>| m.intersect(d).len() < i)
}

proof fn lemma_split_below(
    f: Set<Set<int>>,
    g: Set<Set<int>>,
    d: Set<int>,
    e: Set<int>,
    a: Seq<nat>,
    b: Seq<nat>,
    k: nat,
    i: int,
)
    requires
        lives_on(f, d),
        lives_on(g, e),
        d.disjoint(e),
        d.finite(),
        e.finite(),
        counts_to(a, f, k),
        counts_to(b, g, k),
        0 <= i <= k + 1,
    ensures
        split_below(f, g, d, k, i).finite(),
        split_below(f, g, d, k, i).len() == conv_sum(a, b, k as int, i),
    decreases i,
{
    let now = split_below(f, g, d, k, i);
    if i == 0 {
        assert(now =~= Set::<Set<int>>::empty());
    } else {
        lemma_split_below(f, g, d, e, a, b, k, i - 1);
        let less = split_below(f, g, d, k, i - 1);
        let x = (i - 1) as nat;
        let y = (k - x) as nat;
        let fx = layouts::with_mines(f, x);
        let gy = layouts::with_mines(g, y);
        let here = join(fx, gy);
        layouts::lemma_family_finite(f, d);
        layouts::lemma_family_finite(g, e);
        lemma_set_subset_finite(f, fx);
        lemma_set_subset_finite(g, gy);
        lemma_join_len(fx, gy, d, e);
        assert forall|m: Set<int>| here.contains(m) <==> now.contains(m) && m.intersect(d).len()
            == x by {
            lemma_join_parts(f, g, d, e, m);
            lemma_join_parts(fx, gy, d, e, m);
            let p = m.intersect(d);
            let q = m.intersect(e);
            if join(f, g).contains(m) {
                assert(f.contains(p) && g.contains(q));
                assert(p.finite() && q.finite());
                assert(p.disjoint(q)) by {
                    assert forall|c: int| !(p.contains(c) && q.contains(c)) by {
                        assert(!(d.contains(c) && e.contains(c)));
                    }
                }
                lemma_set_disjoint_lens(p, q);
                assert(p.union(q) =~= m);
            }
        }
        assert(now =~= less.union(here)) by {
            assert forall|m: Set<int>| now.contains(m) <==> less.union(here).contains(m) by {}
        }
        assert(less.disjoint(here)) by {
            assert forall|m: Set<int>| !(less.contains(m) && here.contains(m)) by {}
        }
        lemma_set_disjoint_lens(less, here);
        assert(coef(a, i - 1) == fx.len()) by {
            assert(coef(a, x as int) == layouts::with_mines(f, x).len());
        }
        assert(coef(b, k - (i - 1)) == gy.len()) by {
            assert(coef(b, y as int) == layouts::with_mines(g, y).len());
        }
    }
}

/// The counts of a combined family are the convolution of the counts.
pub proof fn lemma_join_counts(
    f: Set<Set<int>>,
    g: Set<Set<int>>,
    d: Set<int>,
    e: Set<int>,
    a: Seq<nat>,
    b: Seq<nat>,
    k: nat,
)
    requires
        lives_on(f, d),
        lives_on(g, e),
        d.disjoint(e),
        d.finite(),
        e.finite(),
        counts_to(a, f, k),
        counts_to(b, g, k),
    ensures
        layouts::with_mines(join(f, g), k).len() == conv_at(a, b, k as int),
{
    lemma_split_below(f, g, d, e, a, b, k, (k + 1) as int);
    let all = layouts::with_mines(join(f, g), k);
    assert(split_below(f, g, d, k, (k + 1) as int) =~= all) by {
        assert forall|m: Set<int>| all.contains(m) implies m.intersect(d).len() < k + 1 by {
            lemma_join_lives(f, g, d, e);
            layouts::lemma_family_finite(join(f, g), d.union(e));
            assert(m.finite());
            lemma_len_subset(m.intersect(d), m);
        }
    }
}

/// Beyond the ends of both lists, a convolution is zero.
pub proof fn lemma_conv_beyond(a: Seq<nat>, b: Seq<nat>, k: int, i: int)
    requires
        a.len() > 0,
        b.len() > 0,
        k >= a.len() + b.len() - 1,
        0 <= i <= k + 1,
    ensures
        conv_sum(a, b, k, i) == 0,
    decreases i,
{
    if i > 0 {
        lemma_conv_beyond(a, b, k, i - 1);
        let x = coef(a, i - 1);
        let y = coef(b, k - (i - 1));
        assert(x * y == 0) by (nonlinear_arith)
            requires
                x == 0 || y == 0,
        ;
    }
}

/// The convolution as a list counts the combined family.
pub proof fn lemma_conv_counts(
    f: Set<Set<int>>,
    g: Set<Set<int>>,
    d: Set<int>,
    e: Set<int>,
    a: Seq<nat>,
    b: Seq<nat>,
)
    requires
        lives_on(f, d),
        lives_on(g, e),
        d.disjoint(e),
        d.finite(),
        e.finite(),
        counts(a, f),
        counts(b, g),
        a.len() > 0,
        b.len() > 0,
    ensures
        counts(conv(a, b), join(f, g)),
{
    let p = conv(a, b);
    assert forall|k: nat| #[trigger] coef(p, k as int) == layouts::with_mines(
        join(f, g),
        k,
    ).len() by {
        lemma_join_counts(f, g, d, e, a, b, k);
        if k >= p.len() {
            lemma_conv_beyond(a, b, k as int, (k + 1) as int);
        }
    }
}

// ---------------------------------------------------------------------------
// Binomials
// ---------------------------------------------------------------------------

/// The number of ways of choosing `k` out of `n`.
pub open spec fn binom(n: nat, k: nat) -> nat
    decreases n,
{
    if k == 0 {
        1
    } else if n == 0 {
        0
    } else {
        binom((n - 1) as nat, k) + binom((n - 1) as nat, (k - 1) as nat)
    }
}

/// Nothing can be chosen beyond `n`.
pub proof fn lemma_binom_beyond(n: nat, k: nat)
    requires
        k > n,
    ensures
        binom(n, k) == 0,
    decreases n,
{
    if n > 0 {
        lemma_binom_beyond((n - 1) as nat, k);
        lemma_binom_beyond((n - 1) as nat, (k - 1) as nat);
    }
}

/// Each binomial follows from the one before it.
pub proof fn lemma_binom_step(n: nat, k: nat)
    requires
        k <= n,
    ensures
        binom(n, k + 1) * (k + 1) == binom(n, k) * (n - k),
    decreases n,
{
    if n == 0 {
        let next = binom(n, k + 1);
        let now = binom(n, k);
        assert(next * (k + 1) == now * (n - k)) by (nonlinear_arith)
            requires
                next == 0,
                n == k,
        ;
    } else {
        let m = (n - 1) as nat;
        let up = binom(m, k + 1);
        let here = binom(m, k);
        if k == 0 {
            lemma_binom_step(m, 0);
            assert(here == 1);
            let next = binom(n, k + 1);
            let now = binom(n, k);
            assert(next == up + here);
            assert(up * 1 == 1 * (m - 0));
            assert(next * (k + 1) == now * (n - k)) by (nonlinear_arith)
                requires
                    next == n,
                    now == 1,
                    k == 0,
            ;
        } else {
            let down = binom(m, (k - 1) as nat);
            lemma_binom_step(m, (k - 1) as nat);
            if k <= m {
                lemma_binom_step(m, k);
            } else {
                lemma_binom_beyond(m, k);
                lemma_binom_beyond(m, k + 1);
                assert(up * (k + 1) == here * (m - k)) by (nonlinear_arith)
                    requires
                        up == 0,
                        here == 0,
                ;
            }
            assert(up * (k + 1) == here * (m - k));
            assert(here * k == down * (m - (k - 1)));
            assert((up + here) * (k + 1) == (here + down) * (n - k)) by (nonlinear_arith)
                requires
                    up * (k + 1) == here * (m - k),
                    here * k == down * (m - (k - 1)),
                    n == m + 1,
            ;
        }
    }
}

/// A set of cells has as many layouts with `k` mines as there are ways of choosing.
pub proof fn lemma_subsets_count(dom: Set<int>, k: nat)
    requires
        dom.finite(),
    ensures
        layouts::with_mines(layouts::subsets(dom), k).len() == binom(dom.len(), k),
        layouts::with_mines(layouts::subsets(dom), k).finite(),
    decreases dom.len(),
{
    let all = layouts::with_mines(layouts::subsets(dom), k);
    layouts::lemma_subsets_finite(dom);
    lemma_set_subset_finite(layouts::subsets(dom), all);
    if k == 0 {
        assert(all =~= Set::<Set<int>>::empty().insert(Set::<int>::empty())) by {
            assert forall|m: Set<int>| all.contains(m) <==> m == Set::<int>::empty() by {
                if all.contains(m) {
                    assert(m.finite());
                    assert(m =~= Set::<int>::empty());
                }
            }
        }
    } else if dom.len() == 0 {
        assert(dom =~= Set::<int>::empty());
        assert(all =~= Set::<Set<int>>::empty()) by {
            assert forall|m: Set<int>| !all.contains(m) by {
                if all.contains(m) {
                    assert(m =~= Set::<int>::empty());
                }
            }
        }
    } else {
        let c = dom.choose();
        let rest = dom.remove(c);
        lemma_subsets_count(rest, k);
        lemma_subsets_count(rest, (k - 1) as nat);
        let without = layouts::with_mines(layouts::subsets(rest), k);
        let with = layouts::holding(all, c);
        lemma_holding_count(dom, c, k);
        lemma_set_subset_finite(all, with);
        assert(all =~= without.union(with)) by {
            assert forall|m: Set<int>| all.contains(m) <==> without.union(with).contains(m) by {
                if all.contains(m) && !m.contains(c) {
                    assert(m.subset_of(rest));
                }
                if without.contains(m) {
                    assert(m.subset_of(dom));
                }
            }
        }
        assert(without.disjoint(with)) by {
            assert forall|m: Set<int>| !(without.contains(m) && with.contains(m)) by {}
        }
        lemma_set_disjoint_lens(without, with);
    }
}

/// The layouts that put a mine on one cell leave one mine less for the others.
pub proof fn lemma_holding_count(dom: Set<int>, c: int, k: nat)
    requires
        dom.finite(),
        dom.contains(c),
        k > 0,
    ensures
        layouts::holding(layouts::with_mines(layouts::subsets(dom), k), c).len()
            == layouts::with_mines(layouts::subsets(dom.remove(c)), (k - 1) as nat).len(),
{
    let rest = dom.remove(c);
    let fewer = layouts::with_mines(layouts::subsets(rest), (k - 1) as nat);
    let with = layouts::holding(layouts::with_mines(layouts::subsets(dom), k), c);
    layouts::lemma_subsets_finite(rest);
    layouts::lemma_subsets_finite(dom);
    lemma_set_subset_finite(layouts::subsets(rest), fewer);
    let put = |m: Set<int>| m.insert(c);
    assert(vstd::relations::injective_on(put, fewer)) by {
        assert forall|a: Set<int>, b: Set<int>|
            fewer.contains(a) && fewer.contains(b) && #[trigger] put(a) == #[trigger] put(
                b,
            ) implies a == b by {
            assert(layouts::subsets(rest).contains(a) && layouts::subsets(rest).contains(b));
            assert(a =~= put(a).remove(c));
            assert(b =~= put(b).remove(c));
        }
    }
    assert(fewer.map(put) =~= with) by {
        assert forall|m: Set<int>| with.contains(m) implies fewer.map(put).contains(m) by {
            let less = m.remove(c);
            assert(layouts::subsets(dom).contains(m));
            assert(less.subset_of(rest));
            assert(fewer.contains(less));
            assert(put(less) =~= m);
        }
        assert forall|m: Set<int>| fewer.map(put).contains(m) implies with.contains(m) by {
            let less = choose|less: Set<int>| fewer.contains(less) && put(less) == m;
            assert(layouts::subsets(rest).contains(less));
            assert(less.finite());
            assert(m.subset_of(dom));
            assert(!less.contains(c));
        }
    }
    lemma_map_size(fewer, with, put);
}

/// There is a way of choosing no more than there are.
pub proof fn lemma_binom_positive(n: nat, k: nat)
    requires
        k <= n,
    ensures
        binom(n, k) > 0,
    decreases n,
{
    if 0 < k {
        lemma_binom_positive((n - 1) as nat, (k - 1) as nat);
    }
}

/// All of `n` can be chosen in one way.
proof fn lemma_binom_all(n: nat)
    ensures
        binom(n, n) == 1,
    decreases n,
{
    if n > 0 {
        lemma_binom_all((n - 1) as nat);
        lemma_binom_beyond((n - 1) as nat, n);
    }
}

/// Choosing what to take and choosing what to leave are the same.
pub proof fn lemma_binom_symmetric(n: nat, k: nat)
    requires
        k <= n,
    ensures
        binom(n, k) == binom(n, (n - k) as nat),
    decreases n,
{
    lemma_binom_all(n);
    if 0 < k < n {
        lemma_binom_symmetric((n - 1) as nat, k);
        lemma_binom_symmetric((n - 1) as nat, (k - 1) as nat);
    }
}

// ---------------------------------------------------------------------------
// Executable counts
// ---------------------------------------------------------------------------

/// The values of a list of numbers.
pub open spec fn poly(list: Seq<BigNat>) -> Seq<nat> {
    Seq::new(list.len(), |i: int| list[i]@)
}

/// Whether every number of a list is well formed.
pub open spec fn poly_wf(list: Seq<BigNat>) -> bool {
    forall|i: int| 0 <= i < list.len() ==> (#[trigger] list[i]).wf()
}

/// Terms beyond the end of the first list are zero.
pub proof fn lemma_conv_tail(a: Seq<nat>, b: Seq<nat>, k: int, i: int, j: int)
    requires
        a.len() <= i <= j,
    ensures
        conv_sum(a, b, k, j) == conv_sum(a, b, k, i),
    decreases j,
{
    if i < j {
        lemma_conv_tail(a, b, k, i, j - 1);
        let y = coef(b, k - (j - 1));
        assert(0nat * y == 0) by (nonlinear_arith);
    }
}

/// The convolution of two lists at `k`.
pub fn product_at(a: &Vec<BigNat>, b: &Vec<BigNat>, k: usize) -> (sum: BigNat)
    requires
        poly_wf(a@),
        poly_wf(b@),
    ensures
        sum.wf(),
        sum@ == conv_at(poly(a@), poly(b@), k as int),
{
    let mut sum = BigNat::zero();
    let mut i: usize = 0;
    while i < a.len() && i <= k
        invariant
            poly_wf(a@),
            poly_wf(b@),
            sum.wf(),
            i <= a@.len(),
            i <= k + 1,
            sum@ == conv_sum(poly(a@), poly(b@), k as int, i as int),
        decreases a@.len() - i,
    {
        proof {
            assert(a@[i as int].wf());
            let x = coef(poly(a@), i as int);
            let y = coef(poly(b@), k - i);
            assert(x == a@[i as int]@);
            assert(x == 0 || y == 0 ==> x * y == 0) by (nonlinear_arith);
        }
        if k - i < b.len() && !a[i].is_zero() {
            assert(b@[(k - i) as int].wf());
            let term: BigNat = a[i].times(&b[k - i]);
            sum = sum.plus(&term);
        }
        i = i + 1;
    }
    proof {
        if i <= k {
            lemma_conv_tail(poly(a@), poly(b@), k as int, i as int, k + 1);
        }
    }
    sum
}

/// The convolution of two lists.
pub fn convolve(a: &Vec<BigNat>, b: &Vec<BigNat>) -> (out: Vec<BigNat>)
    requires
        poly_wf(a@),
        poly_wf(b@),
        a@.len() + b@.len() <= usize::MAX,
    ensures
        poly_wf(out@),
        poly(out@) =~= conv(poly(a@), poly(b@)),
{
    let mut out: Vec<BigNat> = Vec::new();
    if a.len() == 0 || b.len() == 0 {
        return out;
    }
    let len: usize = a.len() + b.len() - 1;
    for k in 0..len
        invariant
            poly_wf(a@),
            poly_wf(b@),
            poly_wf(out@),
            out@.len() == k,
            forall|j: int|
                0 <= j < k ==> (#[trigger] out@[j])@ == conv_at(poly(a@), poly(b@), j),
    {
        out.push(product_at(a, b, k));
    }
    out
}

/// The binomials `C(n, 0)` to `C(n, upto)`.
pub fn binomials(n: usize, upto: usize) -> (row: Vec<BigNat>)
    requires
        upto <= n,
        upto < usize::MAX,
    ensures
        poly_wf(row@),
        row@.len() == upto + 1,
        forall|k: int| 0 <= k <= upto ==> (#[trigger] row@[k])@ == binom(n as nat, k as nat),
{
    let mut row: Vec<BigNat> = Vec::new();
    row.push(BigNat::from_u64(1));
    for k in 0..upto
        invariant
            upto <= n,
            upto < usize::MAX,
            poly_wf(row@),
            row@.len() == k + 1,
            forall|j: int| 0 <= j <= k ==> (#[trigger] row@[j])@ == binom(n as nat, j as nat),
    {
        assert(row@[k as int].wf());
        let scaled: BigNat = row[k].times_small((n - k) as u64);
        let (next, rest): (BigNat, u64) = scaled.divided_by((k + 1) as u64);
        proof {
            let now = binom(n as nat, k as nat);
            let want = binom(n as nat, (k + 1) as nat);
            lemma_binom_step(n as nat, k as nat);
            assert(row@[k as int]@ == now);
            let q = next@;
            let d = (k + 1) as nat;
            assert(q == want) by (nonlinear_arith)
                requires
                    want * d == q * d + rest,
                    rest < d,
            ;
        }
        row.push(next);
    }
    row
}

/// The number of ways of choosing `k` out of `n`.
pub fn combinations(n: usize, k: usize) -> (ways: BigNat)
    ensures
        ways.wf(),
        ways@ == binom(n as nat, k as nat),
{
    if k > n {
        proof {
            lemma_binom_beyond(n as nat, k as nat);
        }
        return BigNat::zero();
    }
    proof {
        lemma_binom_symmetric(n as nat, k as nat);
    }
    let few: usize = if k < n - k {
        k
    } else {
        n - k
    };
    let mut row: Vec<BigNat> = binomials(n, few);
    assert(row@[few as int].wf());
    row.swap_remove(few)
}

/// Putting a mine on a cell of the first family.
pub proof fn lemma_join_holding(
    f: Set<Set<int>>,
    g: Set<Set<int>>,
    d: Set<int>,
    e: Set<int>,
    c: int,
)
    requires
        lives_on(f, d),
        lives_on(g, e),
        d.disjoint(e),
        d.contains(c),
    ensures
        layouts::holding(join(f, g), c) =~= join(layouts::holding(f, c), g),
{
    let left = layouts::holding(join(f, g), c);
    let right = join(layouts::holding(f, c), g);
    assert(lives_on(layouts::holding(f, c), d));
    assert forall|m: Set<int>| left.contains(m) <==> right.contains(m) by {
        lemma_join_parts(f, g, d, e, m);
        lemma_join_parts(layouts::holding(f, c), g, d, e, m);
    }
}

/// It does not matter which family comes first.
pub proof fn lemma_join_swap(f: Set<Set<int>>, g: Set<Set<int>>)
    ensures
        join(f, g) =~= join(g, f),
{
    assert forall|m: Set<int>| join(f, g).contains(m) <==> join(g, f).contains(m) by {
        if join(f, g).contains(m) {
            let (a, b) = choose|a: Set<int>, b: Set<int>| #[trigger] makes(f, g, a, b, m);
            assert(a.union(b) =~= b.union(a));
            assert(makes(g, f, b, a, m));
        }
        if join(g, f).contains(m) {
            let (a, b) = choose|a: Set<int>, b: Set<int>| #[trigger] makes(g, f, a, b, m);
            assert(a.union(b) =~= b.union(a));
            assert(makes(f, g, b, a, m));
        }
    }
}

// ---------------------------------------------------------------------------
// Adding up
// ---------------------------------------------------------------------------

/// In how many members of a family each of the first `n` cells is a mine, summed up.
pub open spec fn held_sum(family: Set<Set<int>>, n: nat) -> nat
    decreases n,
{
    if n == 0 {
        0
    } else {
        held_sum(family, (n - 1) as nat) + layouts::holding(family, n - 1).len()
    }
}

/// Where every member has `total` mines among the first `n` cells, the cells are
/// mines `total` times as often as there are members.
pub proof fn lemma_held_sum(family: Set<Set<int>>, n: nat, total: nat)
    requires
        family.finite(),
        forall|m: Set<int>| #[trigger]
            family.contains(m) ==> m.subset_of(layouts::first_cells(n)) && m.len() == total,
    ensures
        held_sum(family, n) == total * family.len(),
    decreases family.len(),
{
    if family.len() == 0 {
        assert(family =~= Set::<Set<int>>::empty());
        lemma_held_sum_empty(n);
        assert(total * 0 == 0) by (nonlinear_arith);
    } else {
        let m = family.choose();
        let rest = family.remove(m);
        lemma_held_sum(rest, n, total);
        lemma_held_sum_one(family, m, n);
        layouts::lemma_first_cells(n);
        assert(m.intersect(layouts::first_cells(n)) =~= m);
        let k = rest.len();
        assert(total * k + total == total * (k + 1)) by (nonlinear_arith);
    }
}

proof fn lemma_held_sum_empty(n: nat)
    ensures
        held_sum(Set::empty(), n) == 0,
    decreases n,
{
    if n > 0 {
        lemma_held_sum_empty((n - 1) as nat);
        assert(layouts::holding(Set::empty(), n - 1) =~= Set::<Set<int>>::empty());
    }
}

proof fn lemma_held_sum_one(family: Set<Set<int>>, m: Set<int>, n: nat)
    requires
        family.finite(),
        family.contains(m),
    ensures
        held_sum(family, n) == held_sum(family.remove(m), n) + m.intersect(
            layouts::first_cells(n),
        ).len(),
        m.intersect(layouts::first_cells(n)).finite(),
    decreases n,
{
    let rest = family.remove(m);
    layouts::lemma_first_cells(n);
    lemma_set_subset_finite(layouts::first_cells(n), m.intersect(layouts::first_cells(n)));
    if n == 0 {
        assert(m.intersect(layouts::first_cells(0)) =~= Set::<int>::empty());
    } else {
        let c = n - 1;
        lemma_held_sum_one(family, m, (n - 1) as nat);
        let with = layouts::holding(family, c);
        let less = layouts::holding(rest, c);
        lemma_set_subset_finite(family, with);
        let before = m.intersect(layouts::first_cells((n - 1) as nat));
        let now = m.intersect(layouts::first_cells(n));
        if m.contains(c) {
            assert(less =~= with.remove(m));
            assert(with.contains(m));
            assert(now =~= before.insert(c));
        } else {
            assert(less =~= with);
            assert(now =~= before);
        }
    }
}

} // verus!
