//! Walking every way of choosing `k` positions out of `m`.
//!
//! A combination is written as its positions in ascending order. The walk goes
//! through them in lexicographic order, from `[0, 1, .., k - 1]` to
//! `[m - k, .., m - 1]`, each exactly once.

use vstd::prelude::*;

verus! {

/// A choice of positions below `m`, in ascending order.
pub open spec fn ascending(combo: Seq<int>, m: int) -> bool {
    &&& forall|i: int| 0 <= i < combo.len() ==> 0 <= #[trigger] combo[i] < m
    &&& forall|i: int, j: int| 0 <= i < j < combo.len() ==> combo[i] < combo[j]
}

/// `a` comes before `b` in lexicographic order.
pub open spec fn before(a: Seq<int>, b: Seq<int>) -> bool {
    exists|d: int| #[trigger] first_rise(a, b, d)
}

/// `a` and `b` agree up to `d`, where `a` is smaller.
pub open spec fn first_rise(a: Seq<int>, b: Seq<int>, d: int) -> bool {
    &&& 0 <= d < a.len()
    &&& d < b.len()
    &&& a[d] < b[d]
    &&& forall|i: int| 0 <= i < d ==> #[trigger] a[i] == #[trigger] b[i]
}

/// The mathematical value of an executable combination.
pub open spec fn as_ints(combo: Seq<usize>) -> Seq<int> {
    Seq::new(combo.len(), |i: int| combo[i] as int)
}

/// The first combination, `[0, 1, .., k - 1]`.
pub open spec fn first_combo(k: nat) -> Seq<int> {
    Seq::new(k, |i: int| i)
}

/// Every entry as far right as it can go.
pub open spec fn at_end(combo: Seq<int>, m: int) -> bool {
    forall|i: int| 0 <= i < combo.len() ==> #[trigger] combo[i] == m - combo.len() + i
}

/// The entry at `at` moves up by one, and those behind it follow directly.
pub open spec fn bumped(combo: Seq<int>, at: int) -> Seq<int> {
    Seq::new(
        combo.len(),
        |i: int|
            if i < at {
                combo[i]
            } else {
                combo[at] + 1 + (i - at)
            },
    )
}

/// Of two combinations of one size, either they are equal or one comes first.
pub proof fn lemma_total(a: Seq<int>, b: Seq<int>)
    requires
        a.len() == b.len(),
    ensures
        a == b || before(a, b) || before(b, a),
{
    lemma_total_upto(a, b, a.len() as int);
    if forall|i: int| 0 <= i < a.len() ==> #[trigger] a[i] == #[trigger] b[i] {
        assert(a =~= b);
    }
}

proof fn lemma_total_upto(a: Seq<int>, b: Seq<int>, n: int)
    requires
        a.len() == b.len(),
        0 <= n <= a.len(),
    ensures
        before(a, b) || before(b, a) || forall|i: int|
            0 <= i < n ==> #[trigger] a[i] == #[trigger] b[i],
    decreases n,
{
    if n > 0 {
        lemma_total_upto(a, b, n - 1);
        if !before(a, b) && !before(b, a) {
            if a[n - 1] < b[n - 1] {
                assert(first_rise(a, b, n - 1));
            } else if b[n - 1] < a[n - 1] {
                assert(first_rise(b, a, n - 1));
            }
        }
    }
}

/// Nothing comes before itself, nor both ways round.
pub proof fn lemma_strict(a: Seq<int>, b: Seq<int>)
    ensures
        !before(a, a),
        !(before(a, b) && before(b, a)),
{
    if before(a, b) && before(b, a) {
        let d = choose|d: int| #[trigger] first_rise(a, b, d);
        let e = choose|e: int| #[trigger] first_rise(b, a, e);
        if d < e {
            assert(b[d] == a[d]);
        } else if e < d {
            assert(a[e] == b[e]);
        }
    }
}

/// Coming before is transitive.
pub proof fn lemma_transitive(a: Seq<int>, b: Seq<int>, c: Seq<int>)
    requires
        before(a, b),
        before(b, c),
    ensures
        before(a, c),
{
    let d = choose|d: int| #[trigger] first_rise(a, b, d);
    let e = choose|e: int| #[trigger] first_rise(b, c, e);
    let f = if d < e {
        d
    } else {
        e
    };
    assert(first_rise(a, c, f)) by {
        assert forall|i: int| 0 <= i < f implies #[trigger] a[i] == #[trigger] c[i] by {
            assert(a[i] == b[i]);
            assert(b[i] == c[i]);
        }
        if d < e {
            assert(b[d] == c[d]);
        } else if e < d {
            assert(a[e] == b[e]);
        }
    }
}

/// An entry leaves room below it and above it for the other entries.
pub proof fn lemma_room(combo: Seq<int>, m: int, i: int)
    requires
        ascending(combo, m),
        0 <= i < combo.len(),
    ensures
        i <= combo[i] <= m - combo.len() + i,
{
    lemma_room_below(combo, m, i);
    lemma_room_above(combo, m, i);
}

proof fn lemma_room_below(combo: Seq<int>, m: int, i: int)
    requires
        ascending(combo, m),
        0 <= i < combo.len(),
    ensures
        i <= combo[i],
    decreases i,
{
    if i > 0 {
        lemma_room_below(combo, m, i - 1);
        assert(combo[i - 1] < combo[i]);
    }
}

proof fn lemma_room_above(combo: Seq<int>, m: int, i: int)
    requires
        ascending(combo, m),
        0 <= i < combo.len(),
    ensures
        combo[i] <= m - combo.len() + i,
    decreases combo.len() - i,
{
    if i < combo.len() - 1 {
        lemma_room_above(combo, m, i + 1);
        assert(combo[i] < combo[i + 1]);
    }
}

/// Nothing comes before the first combination.
pub proof fn lemma_first(combo: Seq<int>, m: int)
    requires
        ascending(combo, m),
    ensures
        !before(combo, first_combo(combo.len())),
{
    if before(combo, first_combo(combo.len())) {
        let d = choose|d: int| #[trigger] first_rise(combo, first_combo(combo.len()), d);
        lemma_room(combo, m, d);
    }
}

/// Nothing comes after the last combination.
pub proof fn lemma_last(combo: Seq<int>, other: Seq<int>, m: int)
    requires
        ascending(other, m),
        other.len() == combo.len(),
        at_end(combo, m),
    ensures
        !before(combo, other),
{
    if before(combo, other) {
        let d = choose|d: int| #[trigger] first_rise(combo, other, d);
        lemma_room(other, m, d);
    }
}

/// The combination read as digits in base `m`; it grows with the lexicographic order.
pub open spec fn weight(combo: Seq<int>, m: int) -> int
    decreases combo.len(),
{
    if combo.len() == 0 {
        0
    } else {
        weight(combo.drop_last(), m) * m + combo.last()
    }
}

/// A later combination weighs more.
pub proof fn lemma_weight_grows(a: Seq<int>, b: Seq<int>, m: int)
    requires
        a.len() == b.len(),
        forall|i: int| 0 <= i < a.len() ==> 0 <= #[trigger] a[i] < m,
        forall|i: int| 0 <= i < b.len() ==> 0 <= #[trigger] b[i] < m,
        before(a, b),
    ensures
        weight(a, m) < weight(b, m),
    decreases a.len(),
{
    let d = choose|d: int| #[trigger] first_rise(a, b, d);
    let a0 = a.drop_last();
    let b0 = b.drop_last();
    let last = a.len() - 1;
    assert(a.last() == a[last] && b.last() == b[last]);
    if d < last {
        assert(first_rise(a0, b0, d));
        lemma_weight_grows(a0, b0, m);
        let wa = weight(a0, m);
        let wb = weight(b0, m);
        assert(wa * m + a.last() < wb * m + b.last()) by (nonlinear_arith)
            requires
                wa + 1 <= wb,
                0 <= a.last() < m,
                0 <= b.last(),
        ;
    } else {
        assert(a0 =~= b0);
    }
}

/// The weight stays below `m` to the power of the length.
pub proof fn lemma_weight_bound(a: Seq<int>, m: int)
    requires
        m >= 0,
        forall|i: int| 0 <= i < a.len() ==> 0 <= #[trigger] a[i] < m,
    ensures
        0 <= weight(a, m) < vstd::arithmetic::power::pow(m, a.len()) || a.len() == 0,
        a.len() == 0 ==> weight(a, m) == 0,
    decreases a.len(),
{
    reveal(vstd::arithmetic::power::pow);
    if a.len() > 0 {
        let rest = a.drop_last();
        lemma_weight_bound(rest, m);
        assert(a.last() == a[a.len() - 1]);
        let w = weight(rest, m);
        let p = vstd::arithmetic::power::pow(m, rest.len());
        assert(p >= w + 1);
        assert(0 <= w * m + a.last() < m * p) by (nonlinear_arith)
            requires
                0 <= w,
                w + 1 <= p,
                0 <= a.last() < m,
        ;
    }
}

/// Whether `at` is the rightmost entry that can still move up.
pub open spec fn can_bump(combo: Seq<int>, m: int, at: int) -> bool {
    &&& 0 <= at < combo.len()
    &&& combo[at] < m - combo.len() + at
    &&& forall|i: int| at < i < combo.len() ==> #[trigger] combo[i] == m - combo.len() + i
}

/// Bumping the rightmost entry that can move gives the next combination: nothing
/// lies strictly between.
pub proof fn lemma_bumped(combo: Seq<int>, m: int, at: int)
    requires
        ascending(combo, m),
        can_bump(combo, m, at),
    ensures
        ascending(bumped(combo, at), m),
        bumped(combo, at).len() == combo.len(),
        before(combo, bumped(combo, at)),
        forall|other: Seq<int>|
            ascending(other, m) && other.len() == combo.len() ==> (#[trigger] before(
                other,
                bumped(combo, at),
            ) <==> before(other, combo) || other == combo),
{
    let next = bumped(combo, at);
    assert(ascending(next, m)) by {
        assert forall|i: int| 0 <= i < next.len() implies 0 <= #[trigger] next[i] < m by {
            lemma_room(combo, m, at);
            if i < at {
                assert(0 <= combo[i] < m);
            }
        }
        assert forall|i: int, j: int| 0 <= i < j < next.len() implies next[i] < next[j] by {
            if i < at {
                assert(combo[i] < combo[at]);
                if j < at {
                    assert(combo[i] < combo[j]);
                }
            }
        }
    }
    assert(first_rise(combo, next, at));
    assert forall|other: Seq<int>|
        ascending(other, m) && other.len() == combo.len() implies (#[trigger] before(other, next)
        <==> before(other, combo) || other == combo) by {
        if before(other, combo) {
            lemma_transitive(other, combo, next);
        }
        if before(other, next) && !before(other, combo) && other != combo {
            lemma_total(other, combo);
            let d = choose|d: int| #[trigger] first_rise(combo, other, d);
            lemma_room(other, m, d);
            assert(d <= at);
            let e = choose|e: int| #[trigger] first_rise(other, next, e);
            if d < at {
                // `other` already exceeds the shared prefix.
                assert(next[d] == combo[d]);
                if e < d {
                    assert(next[e] == combo[e]);
                    assert(combo[e] == other[e]);
                } else if e > d {
                    assert(other[d] == next[d]);
                }
            } else {
                if e < at {
                    assert(next[e] == combo[e]);
                    assert(combo[e] == other[e]);
                } else {
                    lemma_follow(other, m, at, e);
                }
            }
        }
    }
}

/// Ascending entries gain at least one per step.
proof fn lemma_follow(combo: Seq<int>, m: int, from: int, to: int)
    requires
        ascending(combo, m),
        0 <= from <= to < combo.len(),
    ensures
        combo[to] >= combo[from] + (to - from),
    decreases to - from,
{
    if from < to {
        lemma_follow(combo, m, from, to - 1);
        assert(combo[to - 1] < combo[to]);
    }
}

/// The first combination of `k` positions.
pub fn start_combination(k: usize) -> (combo: Vec<usize>)
    ensures
        as_ints(combo@) == first_combo(k as nat),
        combo@.len() == k,
{
    let mut combo: Vec<usize> = Vec::new();
    for i in 0..k
        invariant
            combo@.len() == i,
            forall|j: int| 0 <= j < i ==> #[trigger] combo@[j] == j,
    {
        combo.push(i);
    }
    assert(as_ints(combo@) =~= first_combo(k as nat));
    combo
}

/// Moves to the next combination of positions below `m`, or returns `false` and
/// leaves the last one as it is.
pub fn next_combination(combo: &mut Vec<usize>, m: usize) -> (moved: bool)
    requires
        ascending(as_ints(old(combo)@), m as int),
        old(combo)@.len() <= m,
    ensures
        moved <==> !at_end(as_ints(old(combo)@), m as int),
        !moved ==> final(combo)@ == old(combo)@,
        moved ==> exists|at: int|
            #![trigger bumped(as_ints(old(combo)@), at)]
            can_bump(as_ints(old(combo)@), m as int, at) && as_ints(final(combo)@) == bumped(
                as_ints(old(combo)@),
                at,
            ),
{
    let k = combo.len();
    let ghost start = as_ints(combo@);
    let mut i: usize = k;
    while i > 0 && combo[i - 1] == m - k + i - 1
        invariant
            k == combo@.len(),
            k <= m,
            i <= k,
            combo@ == old(combo)@,
            start == as_ints(old(combo)@),
            forall|j: int| i <= j < k ==> #[trigger] start[j] == m - k + j,
        decreases i,
    {
        i -= 1;
    }
    if i == 0 {
        return false;
    }
    let at: usize = i - 1;
    assert(start[at as int] != m - k + at);
    proof {
        lemma_room(start, m as int, at as int);
        assert(can_bump(start, m as int, at as int));
    }
    combo.set(at, combo[at] + 1);
    for j in i..k
        invariant
            k == combo@.len(),
            k <= m,
            i == at + 1,
            start == as_ints(old(combo)@),
            start.len() == k,
            can_bump(start, m as int, at as int),
            forall|l: int| 0 <= l < at ==> #[trigger] combo@[l] == start[l],
            forall|l: int| at <= l < j ==> #[trigger] combo@[l] == start[at as int] + 1 + (l - at),
    {
        assert(combo@[j - 1] == start[at as int] + 1 + (j - 1 - at));
        combo.set(j, combo[j - 1] + 1);
    }
    assert(as_ints(combo@) =~= bumped(start, at as int));
    true
}

} // verus!
