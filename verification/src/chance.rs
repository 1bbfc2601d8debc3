//! Chance: numbers that are drawn, a record of them, and what makes a choice by such
//! numbers a fair one.

use vstd::prelude::*;
use vstd::set_lib::*;
use crate::board;

verus! {

/// A number that was drawn, and the bound it was drawn below.
pub struct Roll {
    pub below: nat,
    pub value: nat,
}

/// Draws numbers, and keeps a record of all that were drawn.
pub struct Dice {
    log: Ghost<Seq<Roll>>,
}

impl Dice {
    /// Everything drawn so far, in order. Nothing gets into it but by a draw.
    pub closed spec fn rolls(self) -> Seq<Roll> {
        self.log@
    }

    /// Nothing drawn yet.
    pub fn new() -> (dice: Self)
        ensures
            dice.rolls() == Seq::<Roll>::empty(),
    {
        Dice { log: Ghost(Seq::empty()) }
    }

    /// Draws a number below `n`.
    pub fn roll(&mut self, n: usize) -> (value: usize)
        requires
            n > 0,
        ensures
            value < n,
            final(self).rolls() == old(self).rolls().push(
                (Roll { below: n as nat, value: value as nat }),
            ),
    {
        let value: usize = board::random_below(n);
        self.log = Ghost(self.log@.push(Roll { below: n as nat, value: value as nat }));
        value
    }
}

/// The record of draws that leave out one more each: the `i`-th is below `n - i`.
pub open spec fn rolls_of(picks: Seq<usize>, n: nat) -> Seq<Roll> {
    Seq::new(
        picks.len(),
        |i: int| Roll { below: (n - i) as nat, value: picks[i] as nat },
    )
}

/// Whether numbers are what was drawn, one after the other, the `i`-th below `n - i`, and
/// nothing else was drawn.
pub open spec fn rolled(picks: Seq<usize>, n: nat) -> bool {
    exists|dice: Dice| #[trigger] dice.rolls() == rolls_of(picks, n)
}

/// Whether a number is the one that was drawn, below `n`, and nothing else was drawn.
pub open spec fn rolled_once(value: nat, n: nat) -> bool {
    exists|dice: Dice| #[trigger] dice.rolls() == seq![Roll { below: n, value }]
}

/// One more draw.
pub proof fn lemma_rolls_push(picks: Seq<usize>, n: nat, pick: usize)
    ensures
        rolls_of(picks.push(pick), n) == rolls_of(picks, n).push(
            (Roll { below: (n - picks.len()) as nat, value: pick as nat }),
        ),
{
    assert(rolls_of(picks.push(pick), n) =~= rolls_of(picks, n).push(
        (Roll { below: (n - picks.len()) as nat, value: pick as nat }),
    ));
}

// ---------------------------------------------------------------------------
// Choosing some of many, one after the other
// ---------------------------------------------------------------------------

/// Whether numbers can be drawn so, the `i`-th below `n - i`.
pub open spec fn in_range(picks: Seq<usize>, n: nat) -> bool {
    &&& picks.len() <= n
    &&& forall|i: int| 0 <= i < picks.len() ==> (#[trigger] picks[i]) < n - i
}

/// `1 * 2 * .. * m`.
pub open spec fn factorial(m: nat) -> nat
    decreases m,
{
    if m == 0 {
        1
    } else {
        m * factorial((m - 1) as nat)
    }
}

/// Whether every number that is drawn takes one out of what is left of `all`: after the
/// draws `q`, `left(q)` lists what is left, each once, and `taken(q)` is what was taken.
pub open spec fn takes_out<A>(
    left: spec_fn(Seq<usize>) -> Seq<A>,
    taken: spec_fn(Seq<usize>) -> Set<A>,
    all: Set<A>,
    n: nat,
) -> bool {
    &&& taken(Seq::empty()) == Set::<A>::empty()
    &&& forall|q: Seq<usize>| #[trigger]
        in_range(q, n) ==> {
            &&& left(q).len() == n - q.len()
            &&& left(q).no_duplicates()
            &&& forall|a: A| #[trigger]
                left(q).contains(a) <==> all.contains(a) && !taken(q).contains(a)
        }
    &&& forall|q: Seq<usize>, r: usize| #[trigger]
        in_range(q.push(r), n) ==> taken(q.push(r)) == taken(q).insert(left(q)[r as int])
}

/// The draws of `m` numbers by which `some` is what is taken.
pub open spec fn draws_taking<A>(
    taken: spec_fn(Seq<usize>) -> Set<A>,
    n: nat,
    m: nat,
    some: Set<A>,
) -> Set<Seq<usize>> {
    Set::new(|q: Seq<usize>| in_range(q, n) && q.len() == m && taken(q) == some)
}

/// The members of a family with one key.
pub open spec fn part<A, B>(family: Set<A>, key: spec_fn(A) -> B, b: B) -> Set<A> {
    family.filter(|a: A| key(a) == b)
}

/// A family whose members fall into parts of one size.
pub proof fn lemma_equal_parts<A, B>(
    family: Set<A>,
    key: spec_fn(A) -> B,
    keys: Set<B>,
    size: nat,
)
    requires
        keys.finite(),
        forall|a: A| #[trigger] family.contains(a) ==> keys.contains(key(a)),
        forall|b: B| #[trigger]
            keys.contains(b) ==> part(family, key, b).finite() && part(family, key, b).len()
                == size,
    ensures
        family.finite(),
        family.len() == keys.len() * size,
    decreases keys.len(),
{
    if keys.len() == 0 {
        assert(family =~= Set::empty()) by {
            assert forall|a: A| !family.contains(a) by {
                if family.contains(a) {
                    assert(keys.contains(key(a)));
                }
            }
        }
    } else {
        let b = keys.choose();
        let here = part(family, key, b);
        let rest = family.difference(here);
        let others = keys.remove(b);
        assert forall|a: A| #[trigger] rest.contains(a) implies others.contains(key(a)) by {
            assert(family.contains(a));
        }
        assert forall|c: B| #[trigger] others.contains(c) implies part(rest, key, c).finite()
            && part(rest, key, c).len() == size by {
            assert(keys.contains(c));
            assert(part(rest, key, c) =~= part(family, key, c));
        }
        lemma_equal_parts(rest, key, others, size);
        assert(here.disjoint(rest));
        lemma_set_disjoint_lens(here, rest);
        assert(here.union(rest) =~= family);
        let n = keys.len();
        assert((n - 1) * size + size == n * size) by (nonlinear_arith);
    }
}

/// Where the last draw took a given member out.
proof fn lemma_last_taken<A>(
    left: spec_fn(Seq<usize>) -> Seq<A>,
    taken: spec_fn(Seq<usize>) -> Set<A>,
    all: Set<A>,
    n: nat,
    m: nat,
    some: Set<A>,
    c: A,
)
    requires
        takes_out(left, taken, all, n),
        n <= usize::MAX,
        0 < m <= n,
        some.finite(),
        some.contains(c),
        all.contains(c),
        draws_taking(taken, n, (m - 1) as nat, some.remove(c)).finite(),
    ensures
        ({
            let key = |q: Seq<usize>| left(q.drop_last())[q.last() as int];
            let here = part(draws_taking(taken, n, m, some), key, c);
            here.finite() && here.len() == draws_taking(
                taken,
                n,
                (m - 1) as nat,
                some.remove(c),
            ).len()
        }),
{
    let key = |q: Seq<usize>| left(q.drop_last())[q.last() as int];
    let here = part(draws_taking(taken, n, m, some), key, c);
    let fewer = draws_taking(taken, n, (m - 1) as nat, some.remove(c));
    let on = |q: Seq<usize>| q.push(left(q).index_of(c) as usize);
    assert forall|q: Seq<usize>| #[trigger] fewer.contains(q) implies here.contains(on(q)) by {
        assert(left(q).contains(c));
        let r = left(q).index_of(c);
        assert(0 <= r < left(q).len() && left(q)[r] == c);
        let more = on(q);
        assert(more == q.push(r as usize));
        assert(in_range(more, n)) by {
            assert forall|i: int| 0 <= i < more.len() implies (#[trigger] more[i]) < n - i by {
                if i < q.len() {
                    assert(more[i] == q[i]);
                }
            }
        }
        assert(in_range(q.push(r as usize), n));
        assert(taken(more) == taken(q).insert(c));
        assert(some.remove(c).insert(c) =~= some);
        assert(more.drop_last() =~= q);
        assert(key(more) == c);
    }
    assert forall|q: Seq<usize>| #[trigger] here.contains(q) implies fewer.contains(q.drop_last())
        && on(q.drop_last()) == q by {
        let less = q.drop_last();
        assert(in_range(less, n)) by {
            assert forall|i: int| 0 <= i < less.len() implies (#[trigger] less[i]) < n - i by {
                assert(less[i] == q[i]);
            }
        }
        let r = q.last();
        assert(q =~= less.push(r));
        assert(in_range(less.push(r), n));
        assert(q[q.len() - 1] < n - (q.len() - 1));
        assert(key(q) == c);
        assert(left(less)[r as int] == c);
        assert(left(less).contains(c));
        assert(taken(less).insert(c) == some);
        assert(taken(less) =~= some.remove(c));
        let at = left(less).index_of(c);
        assert(0 <= at < left(less).len() && left(less)[at] == c);
        assert(at == r);
    }
    assert(fewer.map(on) =~= here) by {
        assert forall|q: Seq<usize>| here.contains(q) implies fewer.map(on).contains(q) by {
            assert(fewer.contains(q.drop_last()) && on(q.drop_last()) == q);
        }
    }
    assert(vstd::relations::injective_on(on, fewer)) by {
        assert forall|a: Seq<usize>, b: Seq<usize>|
            fewer.contains(a) && fewer.contains(b) && #[trigger] on(a) == #[trigger] on(
                b,
            ) implies a == b by {
            assert(on(a).drop_last() =~= a);
            assert(on(b).drop_last() =~= b);
        }
    }
    lemma_map_size(fewer, here, on);
    fewer.lemma_map_finite(on);
}

/// Taking one after the other out of what is left is fair: whichever `m` members are asked
/// for, equally many draws take just these, as many as there are orders to take them in.
pub proof fn law_every_choice_is_equally_likely<A>(
    left: spec_fn(Seq<usize>) -> Seq<A>,
    taken: spec_fn(Seq<usize>) -> Set<A>,
    all: Set<A>,
    n: nat,
    some: Set<A>,
)
    requires
        takes_out(left, taken, all, n),
        n <= usize::MAX,
        some.subset_of(all),
        some.finite(),
        some.len() <= n,
    ensures
        draws_taking(taken, n, some.len(), some).finite(),
        draws_taking(taken, n, some.len(), some).len() == factorial(some.len()),
    decreases some.len(),
{
    let m = some.len();
    let family = draws_taking(taken, n, m, some);
    if m == 0 {
        assert(some =~= Set::empty());
        let one = Set::<Seq<usize>>::empty().insert(Seq::empty());
        assert(in_range(Seq::empty(), n));
        assert(family =~= one) by {
            assert forall|q: Seq<usize>| family.contains(q) <==> one.contains(q) by {
                if family.contains(q) {
                    assert(q =~= Seq::empty());
                }
            }
        }
    } else {
        let key = |q: Seq<usize>| left(q.drop_last())[q.last() as int];
        let size = factorial((m - 1) as nat);
        assert forall|c: A| #[trigger] some.contains(c) implies part(family, key, c).finite()
            && part(family, key, c).len() == size by {
            law_every_choice_is_equally_likely(left, taken, all, n, some.remove(c));
            lemma_last_taken(left, taken, all, n, m, some, c);
        }
        assert forall|q: Seq<usize>| #[trigger] family.contains(q) implies some.contains(key(q)) by {
            let less = q.drop_last();
            assert(q =~= less.push(q.last()));
            assert(in_range(less.push(q.last()), n));
        }
        lemma_equal_parts(family, key, some, size);
    }
}

} // verus!
