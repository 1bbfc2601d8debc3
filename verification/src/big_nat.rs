//! Natural numbers of any size.
//!
//! A board can have more layouts than any machine integer holds, and only exact
//! counts tell a cell that is never a mine from one that hardly ever is.

use vstd::prelude::*;
use vstd::arithmetic::power::{lemma_pow_adds, lemma_pow_positive, pow};

verus! {

/// Each limb holds 32 bits.
pub const BASE: u64 = 0x1_0000_0000;

/// The value of some limbs, least significant first.
pub open spec fn value(limbs: Seq<u32>) -> nat
    decreases limbs.len(),
{
    if limbs.len() == 0 {
        0
    } else {
        value(limbs.drop_last()) + limbs.last() as nat * place((limbs.len() - 1) as nat)
    }
}

/// What one limb at a position is worth.
pub open spec fn place(i: nat) -> nat {
    pow(BASE as int, i) as nat
}

/// A natural number of any size.
pub struct BigNat {
    /// The limbs, least significant first; the last one is not zero.
    pub limbs: Vec<u32>,
}

// ---------------------------------------------------------------------------
// Limbs
// ---------------------------------------------------------------------------

/// Places grow by the base.
pub proof fn lemma_place(i: nat)
    ensures
        place(i) > 0,
        place(i + 1) == BASE * place(i),
        place(0) == 1,
{
    reveal(pow);
    lemma_pow_positive(BASE as int, i);
    lemma_pow_positive(BASE as int, i + 1);
}

/// One more limb.
pub proof fn lemma_value_take(limbs: Seq<u32>, k: int)
    requires
        0 <= k < limbs.len(),
    ensures
        value(limbs.take(k + 1)) == value(limbs.take(k)) + limbs[k] as nat * place(k as nat),
{
    assert(limbs.take(k + 1).drop_last() =~= limbs.take(k));
}

/// Pushing a limb.
pub proof fn lemma_value_push(limbs: Seq<u32>, limb: u32)
    ensures
        value(limbs.push(limb)) == value(limbs) + limb as nat * place(limbs.len()),
{
    assert(limbs.push(limb).drop_last() =~= limbs);
}

/// Changing one limb changes the value by what the limb's place is worth.
pub proof fn lemma_value_update(limbs: Seq<u32>, k: int, limb: u32)
    requires
        0 <= k < limbs.len(),
    ensures
        value(limbs.update(k, limb)) + limbs[k] as nat * place(k as nat) == value(limbs)
            + limb as nat * place(k as nat),
    decreases limbs.len(),
{
    let new = limbs.update(k, limb);
    if k == limbs.len() - 1 {
        assert(new.drop_last() =~= limbs.drop_last());
    } else {
        assert(new.drop_last() =~= limbs.drop_last().update(k, limb));
        lemma_value_update(limbs.drop_last(), k, limb);
    }
}

/// The value of some limbs is below the next place.
pub proof fn lemma_value_bound(limbs: Seq<u32>)
    ensures
        value(limbs) < place(limbs.len()),
    decreases limbs.len(),
{
    lemma_place(0);
    if limbs.len() > 0 {
        let i = (limbs.len() - 1) as nat;
        lemma_value_bound(limbs.drop_last());
        lemma_place(i);
        let p = place(i);
        let low = value(limbs.drop_last());
        let top = limbs.last() as nat;
        assert(low + top * p < BASE * p) by (nonlinear_arith)
            requires
                low < p,
                top <= BASE - 1,
        ;
    }
}

/// Zero limbs on top add nothing.
proof fn lemma_value_zeros(limbs: Seq<u32>)
    requires
        forall|i: int| 0 <= i < limbs.len() ==> #[trigger] limbs[i] == 0,
    ensures
        value(limbs) == 0,
    decreases limbs.len(),
{
    if limbs.len() > 0 {
        let rest = limbs.drop_last();
        assert forall|i: int| 0 <= i < rest.len() implies #[trigger] rest[i] == 0 by {
            assert(rest[i] == limbs[i]);
        }
        lemma_value_zeros(rest);
        assert(limbs.last() == limbs[limbs.len() - 1]);
        let p = place((limbs.len() - 1) as nat);
        assert(0nat * p == 0) by (nonlinear_arith);
    }
}

/// Limbs without a leading zero are determined by their value.
pub proof fn lemma_value_unique(a: Seq<u32>, b: Seq<u32>)
    requires
        a.len() > 0 ==> a.last() != 0,
        b.len() > 0 ==> b.last() != 0,
        value(a) == value(b),
    ensures
        a == b,
    decreases a.len(),
{
    if a.len() < b.len() {
        lemma_value_shorter(a, b);
    } else if b.len() < a.len() {
        lemma_value_shorter(b, a);
    } else {
        lemma_value_same_len(a, b);
    }
}

proof fn lemma_value_shorter(a: Seq<u32>, b: Seq<u32>)
    requires
        a.len() < b.len(),
        b.last() != 0,
    ensures
        value(a) < value(b),
{
    lemma_value_bound(a);
    let i = (b.len() - 1) as nat;
    let p = place(i);
    let top = b.last() as nat;
    assert(top * p >= p) by (nonlinear_arith)
        requires
            top >= 1,
    ;
    lemma_place_grows(a.len(), i);
}

proof fn lemma_place_grows(i: nat, j: nat)
    requires
        i <= j,
    ensures
        place(i) <= place(j),
    decreases j,
{
    if i < j {
        lemma_place_grows(i, (j - 1) as nat);
        lemma_place((j - 1) as nat);
    }
}

proof fn lemma_value_same_len(a: Seq<u32>, b: Seq<u32>)
    requires
        a.len() == b.len(),
        value(a) == value(b),
    ensures
        a == b,
    decreases a.len(),
{
    if a.len() > 0 {
        let i = (a.len() - 1) as nat;
        let p = place(i);
        let x = value(a.drop_last());
        let y = value(b.drop_last());
        let s = a.last() as nat;
        let t = b.last() as nat;
        lemma_value_bound(a.drop_last());
        lemma_value_bound(b.drop_last());
        assert(s == t) by (nonlinear_arith)
            requires
                x + s * p == y + t * p,
                x < p,
                y < p,
        ;
        lemma_value_same_len(a.drop_last(), b.drop_last());
        assert(a =~= a.drop_last().push(a.last()));
        assert(b =~= b.drop_last().push(b.last()));
    } else {
        assert(a =~= b);
    }
}

// ---------------------------------------------------------------------------
// Arithmetic
// ---------------------------------------------------------------------------

impl View for BigNat {
    type V = nat;

    open spec fn view(&self) -> nat {
        value(self.limbs@)
    }
}

/// Removes leading zeros.
fn trimmed(limbs: Vec<u32>) -> (n: BigNat)
    ensures
        n.wf(),
        n@ == value(limbs@),
{
    let mut limbs: Vec<u32> = limbs;
    let ghost start = value(limbs@);
    while limbs.len() > 0 && limbs[limbs.len() - 1] == 0
        invariant
            value(limbs@) == start,
        decreases limbs@.len(),
    {
        proof {
            let p = place((limbs@.len() - 1) as nat);
            assert(0nat * p == 0) by (nonlinear_arith);
        }
        let _ = limbs.pop();
    }
    BigNat { limbs }
}

impl BigNat {
    /// No leading zeros.
    pub open spec fn wf(self) -> bool {
        self.limbs@.len() > 0 ==> self.limbs@.last() != 0
    }

    /// Zero.
    pub fn zero() -> (n: Self)
        ensures
            n.wf(),
            n@ == 0,
    {
        BigNat { limbs: Vec::new() }
    }

    /// A machine integer.
    pub fn from_u64(x: u64) -> (n: Self)
        ensures
            n.wf(),
            n@ == x,
    {
        let low: u32 = (x % BASE) as u32;
        let high: u32 = (x / BASE) as u32;
        let mut limbs: Vec<u32> = Vec::new();
        limbs.push(low);
        limbs.push(high);
        proof {
            reveal_with_fuel(value, 3);
            lemma_place(0);
            lemma_place(1);
            assert(limbs@.drop_last().drop_last() =~= Seq::<u32>::empty());
            assert(x == low + high * BASE) by (nonlinear_arith)
                requires
                    low == x % BASE,
                    high == x / BASE,
            ;
            assert(value(limbs@) == low as nat * 1 + high as nat * place(1));
        }
        trimmed(limbs)
    }

    /// Whether this is zero.
    pub fn is_zero(&self) -> (zero: bool)
        requires
            self.wf(),
        ensures
            zero == (self@ == 0),
    {
        proof {
            if self.limbs@.len() > 0 {
                lemma_value_shorter(Seq::<u32>::empty(), self.limbs@);
            }
        }
        self.limbs.len() == 0
    }

    /// The value as a machine integer, where it fits.
    pub fn to_u64(&self) -> (x: Option<u64>)
        requires
            self.wf(),
        ensures
            x is Some <==> self@ <= u64::MAX,
            x matches Some(v) ==> v == self@,
    {
        let len: usize = self.limbs.len();
        proof {
            lemma_place(0);
            lemma_place(1);
            reveal_with_fuel(value, 3);
            assert(self.limbs@.take(0) =~= Seq::<u32>::empty());
        }
        if len > 2 {
            proof {
                let top = self.limbs@.last() as nat;
                let p = place((len - 1) as nat);
                lemma_place_grows(2, (len - 1) as nat);
                assert(top * p >= p) by (nonlinear_arith)
                    requires
                        top >= 1,
                ;
                assert(place(2) == BASE * BASE);
                assert(0x1_0000_0000int * 0x1_0000_0000int > u64::MAX) by (nonlinear_arith);
            }
            return None;
        }
        let low: u64 = if len > 0 {
            self.limbs[0] as u64
        } else {
            0
        };
        let high: u64 = if len > 1 {
            self.limbs[1] as u64
        } else {
            0
        };
        proof {
            let p = place(0);
            let q = place(1);
            assert(low as nat * p == low) by (nonlinear_arith)
                requires
                    p == 1,
            ;
            assert(high as nat * q == high * BASE) by (nonlinear_arith)
                requires
                    q == BASE,
            ;
            if len > 0 {
                lemma_value_take(self.limbs@, 0);
            }
            if len > 1 {
                lemma_value_take(self.limbs@, 1);
            }
            assert(self.limbs@.take(len as int) =~= self.limbs@);
            assert(value(Seq::<u32>::empty()) == 0);
            assert(high * BASE + low <= u64::MAX) by (nonlinear_arith)
                requires
                    high <= 0xffff_ffff,
                    low <= 0xffff_ffff,
            ;
        }
        Some(high * BASE + low)
    }

    /// Whether two numbers are equal.
    pub fn equals(&self, other: &BigNat) -> (equal: bool)
        requires
            self.wf(),
            other.wf(),
        ensures
            equal == (self@ == other@),
    {
        if self.limbs.len() != other.limbs.len() {
            proof {
                if self@ == other@ {
                    lemma_value_unique(self.limbs@, other.limbs@);
                }
            }
            return false;
        }
        for i in 0..self.limbs.len()
            invariant
                self.wf(),
                other.wf(),
                self.limbs@.len() == other.limbs@.len(),
                forall|k: int| 0 <= k < i ==> #[trigger] self.limbs@[k] == other.limbs@[k],
        {
            if self.limbs[i] != other.limbs[i] {
                proof {
                    if self@ == other@ {
                        lemma_value_unique(self.limbs@, other.limbs@);
                    }
                }
                return false;
            }
        }
        assert(self.limbs@ =~= other.limbs@);
        true
    }

    /// Whether this number is larger than another one.
    pub fn exceeds(&self, other: &BigNat) -> (larger: bool)
        requires
            self.wf(),
            other.wf(),
        ensures
            larger == (self@ > other@),
    {
        let ghost a = self.limbs@;
        let ghost b = other.limbs@;
        if self.limbs.len() > other.limbs.len() {
            proof {
                lemma_value_shorter(b, a);
            }
            return true;
        }
        if self.limbs.len() < other.limbs.len() {
            proof {
                lemma_value_shorter(a, b);
            }
            return false;
        }
        let mut i: usize = self.limbs.len();
        assert(a.take(i as int) =~= a && b.take(i as int) =~= b);
        while i > 0
            invariant
                a == self.limbs@,
                b == other.limbs@,
                a.len() == b.len(),
                i <= a.len(),
                self@ == value(a),
                other@ == value(b),
                value(a) - value(a.take(i as int)) == value(b) - value(b.take(i as int)),
            decreases i,
        {
            i = i - 1;
            proof {
                lemma_value_take(a, i as int);
                lemma_value_take(b, i as int);
                lemma_value_bound(a.take(i as int));
                lemma_value_bound(b.take(i as int));
            }
            let ghost p = place(i as nat);
            let ghost low = (value(a.take(i as int)), value(b.take(i as int)));
            if self.limbs[i] != other.limbs[i] {
                proof {
                    let s = a[i as int] as nat;
                    let t = b[i as int] as nat;
                    assert((low.0 + s * p > low.1 + t * p) == (s > t)) by (nonlinear_arith)
                        requires
                            s != t,
                            low.0 < p,
                            low.1 < p,
                    ;
                }
                return self.limbs[i] > other.limbs[i];
            }
        }
        assert(a.take(0) =~= b.take(0));
        false
    }

    /// The same number again.
    pub fn copy(&self) -> (n: Self)
        requires
            self.wf(),
        ensures
            n.wf(),
            n@ == self@,
    {
        let mut limbs: Vec<u32> = Vec::new();
        for i in 0..self.limbs.len()
            invariant
                limbs@ == self.limbs@.take(i as int),
        {
            limbs.push(self.limbs[i]);
            assert(limbs@ =~= self.limbs@.take(i + 1));
        }
        assert(limbs@ =~= self.limbs@);
        BigNat { limbs }
    }

    /// The sum of two numbers.
    pub fn plus(&self, other: &BigNat) -> (n: Self)
        requires
            self.wf(),
            other.wf(),
        ensures
            n.wf(),
            n@ == self@ + other@,
    {
        if self.limbs.len() >= other.limbs.len() {
            add_limbs(&self.limbs, &other.limbs)
        } else {
            add_limbs(&other.limbs, &self.limbs)
        }
    }

    /// This number times a machine integer.
    pub fn times_small(&self, factor: u64) -> (n: Self)
        requires
            self.wf(),
        ensures
            n.wf(),
            n@ == self@ * factor,
    {
        let mut limbs: Vec<u32> = Vec::new();
        let mut carry: u64 = 0;
        proof {
            lemma_place(0);
            assert(0 * factor == 0) by (nonlinear_arith);
        }
        for i in 0..self.limbs.len()
            invariant
                limbs@.len() == i,
                value(limbs@) + carry * place(i as nat) == value(self.limbs@.take(i as int))
                    * factor,
        {
            let limb: u32 = self.limbs[i];
            assert(limb as nat * factor as nat + carry as nat <= u128::MAX) by (nonlinear_arith)
                requires
                    limb <= u32::MAX,
                    factor <= u64::MAX,
                    carry <= u64::MAX,
            ;
            let t: u128 = (limb as u128) * (factor as u128) + (carry as u128);
            let low: u32 = (t % (BASE as u128)) as u32;
            assert(t / (BASE as u128) <= u64::MAX) by (nonlinear_arith)
                requires
                    t == limb as nat * factor as nat + carry as nat,
                    limb <= u32::MAX,
                    factor <= u64::MAX,
                    carry <= u64::MAX,
            ;
            let next: u64 = (t / (BASE as u128)) as u64;
            let ghost before = limbs@;
            limbs.push(low);
            proof {
                lemma_value_push(before, low);
                lemma_value_take(self.limbs@, i as int);
                lemma_place(i as nat);
                let p = place(i as nat);
                let had = value(before);
                let taken = value(self.limbs@.take(i as int));
                let q = place((i + 1) as nat);
                assert((had + low as nat * p) + next as nat * q == (taken + limb as nat * p)
                    * factor as nat) by (nonlinear_arith)
                    requires
                        had + carry as nat * p == taken * factor as nat,
                        q == BASE * p,
                        t == limb as nat * factor as nat + carry as nat,
                        low == t % (BASE as u128),
                        next == t / (BASE as u128),
                ;
            }
            carry = next;
        }
        assert(self.limbs@.take(self.limbs@.len() as int) =~= self.limbs@);
        let ghost before = limbs@;
        let low: u32 = (carry % BASE) as u32;
        let high: u32 = (carry / BASE) as u32;
        limbs.push(low);
        limbs.push(high);
        proof {
            let n = before.len();
            lemma_value_push(before, low);
            lemma_value_push(before.push(low), high);
            lemma_place(n);
            let p = place(n);
            let q = place(n + 1);
            assert(low as nat * p + high as nat * q == carry as nat * p) by (nonlinear_arith)
                requires
                    q == BASE * p,
                    low == carry % BASE,
                    high == carry / BASE,
            ;
        }
        trimmed(limbs)
    }
}

impl BigNat {
    /// The product of two numbers.
    pub fn times(&self, other: &BigNat) -> (n: Self)
        requires
            self.wf(),
            other.wf(),
        ensures
            n.wf(),
            n@ == self@ * other@,
    {
        let b: &Vec<u32> = &other.limbs;
        let mut acc: Vec<u32> = Vec::new();
        for j in 0..b.len()
            invariant
                acc@.len() == j,
                forall|k: int| 0 <= k < j ==> #[trigger] acc@[k] == 0,
        {
            acc.push(0);
        }
        proof {
            lemma_value_zeros(acc@);
            assert(0 * value(b@) == 0) by (nonlinear_arith);
        }
        for i in 0..self.limbs.len()
            invariant
                b@ == other.limbs@,
                acc@.len() == i + b@.len(),
                value(acc@) == value(self.limbs@.take(i as int)) * value(b@),
        {
            let limb: u32 = self.limbs[i];
            add_row(&mut acc, limb, b, i);
            proof {
                lemma_value_take(self.limbs@, i as int);
                let taken = value(self.limbs@.take(i as int));
                let p = place(i as nat);
                let v = value(b@);
                assert(taken * v + limb as nat * p * v == (taken + limb as nat * p) * v)
                    by (nonlinear_arith);
            }
        }
        assert(self.limbs@.take(self.limbs@.len() as int) =~= self.limbs@);
        trimmed(acc)
    }

    /// Quotient and remainder by a machine integer.
    pub fn divided_by(&self, divisor: u64) -> (result: (Self, u64))
        requires
            self.wf(),
            divisor > 0,
        ensures
            result.0.wf(),
            result.1 < divisor,
            self@ == result.0@ * divisor + result.1,
    {
        let len: usize = self.limbs.len();
        let mut q: Vec<u32> = Vec::new();
        for j in 0..len
            invariant
                q@.len() == j,
                forall|k: int| 0 <= k < j ==> #[trigger] q@[k] == 0,
        {
            q.push(0);
        }
        let mut rest: u64 = 0;
        let mut i: usize = len;
        proof {
            lemma_value_zeros(q@);
            assert(self.limbs@.take(len as int) =~= self.limbs@);
            let p = place(len as nat);
            assert(0nat * p == 0) by (nonlinear_arith);
            assert(0 * divisor == 0) by (nonlinear_arith);
        }
        while i > 0
            invariant
                divisor > 0,
                i <= len,
                len == self.limbs@.len(),
                q@.len() == len,
                rest < divisor,
                forall|k: int| 0 <= k < i ==> #[trigger] q@[k] == 0,
                value(q@) * divisor + rest * place(i as nat) + value(self.limbs@.take(i as int))
                    == self@,
            decreases i,
        {
            let ghost j = (i - 1) as int;
            i = i - 1;
            let limb: u32 = self.limbs[i];
            assert(rest as nat * BASE as nat + limb as nat <= u128::MAX) by (nonlinear_arith)
                requires
                    rest <= u64::MAX,
                    limb <= u32::MAX,
            ;
            let t: u128 = (rest as u128) * (BASE as u128) + (limb as u128);
            assert(t / (divisor as u128) < BASE) by (nonlinear_arith)
                requires
                    t == rest as nat * BASE as nat + limb as nat,
                    rest < divisor,
                    limb < BASE,
                    divisor > 0,
            ;
            let digit: u32 = (t / (divisor as u128)) as u32;
            let next: u64 = (t % (divisor as u128)) as u64;
            let ghost before = q@;
            q.set(i, digit);
            proof {
                lemma_value_update(before, j, digit);
                lemma_value_take(self.limbs@, j);
                lemma_place(j as nat);
                let p = place(j as nat);
                let high = place((j + 1) as nat);
                let v = value(before);
                let w = value(q@);
                let low = value(self.limbs@.take(j));
                let d = divisor as nat;
                assert(0nat * p == 0) by (nonlinear_arith);
                assert(w == v + digit as nat * p);
                assert(w * d + next as nat * p + low == v * d + rest as nat * high + (low
                    + limb as nat * p)) by (nonlinear_arith)
                    requires
                        w == v + digit as nat * p,
                        high == BASE * p,
                        t == rest as nat * BASE as nat + limb as nat,
                        digit == t / (divisor as u128),
                        next == t % (divisor as u128),
                        d == divisor as nat,
                        divisor > 0,
                ;
            }
            rest = next;
        }
        proof {
            lemma_place(0);
            assert(self.limbs@.take(0) =~= Seq::<u32>::empty());
            let one = place(0);
            assert(rest as nat * one == rest) by (nonlinear_arith)
                requires
                    one == 1,
            ;
        }
        (trimmed(q), rest)
    }
}

/// Adds one limb times `b`, shifted by `i` limbs, and one limb on top.
fn add_row(acc: &mut Vec<u32>, limb: u32, b: &Vec<u32>, i: usize)
    requires
        old(acc)@.len() == i + b@.len(),
    ensures
        final(acc)@.len() == i + b@.len() + 1,
        value(final(acc)@) == value(old(acc)@) + limb as nat * place(i as nat) * value(b@),
{
    let ghost start = value(acc@);
    let mut carry: u64 = 0;
    proof {
        let p = place(i as nat);
        assert(0nat * p == 0) by (nonlinear_arith);
        let x = limb as nat * p;
        assert(x * 0 == 0) by (nonlinear_arith);
    }
    for j in 0..b.len()
        invariant
            acc@.len() == i + b@.len(),
            carry < BASE,
            value(acc@) + carry * place((i + j) as nat) == start + limb as nat * place(i as nat)
                * value(b@.take(j as int)),
    {
        assert(i + j < acc.len());
        let at: usize = i + j;
        let x: u64 = limb as u64;
        let y: u64 = b[j] as u64;
        let z: u64 = acc[at] as u64;
        assert(x * y + z + carry <= u64::MAX) by (nonlinear_arith)
            requires
                x <= 0xffff_ffff,
                y <= 0xffff_ffff,
                z <= 0xffff_ffff,
                carry <= 0xffff_ffff,
        ;
        assert(x * y <= u64::MAX) by (nonlinear_arith)
            requires
                x <= 0xffff_ffff,
                y <= 0xffff_ffff,
        ;
        let t: u64 = x * y + z + carry;
        let low: u32 = (t % BASE) as u32;
        let next: u64 = t / BASE;
        let ghost before = acc@;
        acc.set(at, low);
        proof {
            lemma_value_update(before, at as int, low);
            lemma_value_take(b@, j as int);
            lemma_place(at as nat);
            reveal(pow);
            lemma_pow_adds(BASE as int, i as nat, j as nat);
            lemma_pow_positive(BASE as int, i as nat);
            lemma_pow_positive(BASE as int, j as nat);
            let p = place(i as nat);
            let r = place(j as nat);
            let pr = place(at as nat);
            let next_place = place((at + 1) as nat);
            assert(pr == p * r);
            let had = value(before);
            let now = value(acc@);
            let taken = value(b@.take(j as int));
            lemma_row_step(had, now, start, taken, p, r, pr, next_place, x as nat, y as nat, z as nat, carry as nat, low as nat, next as nat, t as nat);
        }
        carry = next;
    }
    assert(b@.take(b@.len() as int) =~= b@);
    let ghost before = acc@;
    acc.push(carry as u32);
    proof {
        lemma_value_push(before, carry as u32);
    }
}

/// The arithmetic of one step of a row.
proof fn lemma_row_step(
    had: nat,
    now: nat,
    start: nat,
    taken: nat,
    p: nat,
    r: nat,
    pr: nat,
    next_place: nat,
    x: nat,
    y: nat,
    z: nat,
    carry: nat,
    low: nat,
    next: nat,
    t: nat,
)
    requires
        now + z * pr == had + low * pr,
        had + carry * pr == start + x * p * taken,
        pr == p * r,
        next_place == BASE * pr,
        t == x * y + z + carry,
        low == t % (BASE as nat),
        next == t / (BASE as nat),
    ensures
        now + next * next_place == start + x * p * (taken + y * r),
{
    assert(low * pr + next * next_place == t * pr) by (nonlinear_arith)
        requires
            next_place == BASE * pr,
            low == t % (BASE as nat),
            next == t / (BASE as nat),
    ;
    assert(t * pr == x * y * pr + z * pr + carry * pr) by (nonlinear_arith)
        requires
            t == x * y + z + carry,
    ;
    assert(x * p * (taken + y * r) == x * p * taken + x * y * pr) by (nonlinear_arith)
        requires
            pr == p * r,
    ;
}

/// Adds limbs; `a` is the longer operand.
fn add_limbs(a: &Vec<u32>, b: &Vec<u32>) -> (n: BigNat)
    requires
        a@.len() >= b@.len(),
    ensures
        n.wf(),
        n@ == value(a@) + value(b@),
{
    let mut limbs: Vec<u32> = Vec::new();
    let mut carry: u64 = 0;
    proof {
        lemma_place(0);
    }
    for i in 0..a.len()
        invariant
            a@.len() >= b@.len(),
            limbs@.len() == i,
            carry <= 1,
            value(limbs@) + carry * place(i as nat) == value(a@.take(i as int)) + value(
                b@.take(if i < b@.len() {
                    i as int
                } else {
                    b@.len() as int
                }),
            ),
    {
        let x: u64 = a[i] as u64;
        let y: u64 = if i < b.len() {
            b[i] as u64
        } else {
            0
        };
        let t: u64 = x + y + carry;
        let low: u32 = (t % BASE) as u32;
        let next: u64 = t / BASE;
        let ghost before = limbs@;
        limbs.push(low);
        proof {
            lemma_value_push(before, low);
            lemma_value_take(a@, i as int);
            if i < b@.len() {
                lemma_value_take(b@, i as int);
            }
            lemma_place(i as nat);
            let p = place(i as nat);
            let q = place((i + 1) as nat);
            assert(low as nat * p + next as nat * q == x as nat * p + y as nat * p + carry as nat
                * p) by (nonlinear_arith)
                requires
                    q == BASE * p,
                    t == x + y + carry,
                    low == t % BASE,
                    next == t / BASE,
            ;
            assert(0nat * p == 0) by (nonlinear_arith);
        }
        carry = next;
    }
    assert(a@.take(a@.len() as int) =~= a@);
    assert(b@.take(b@.len() as int) =~= b@);
    let ghost before = limbs@;
    limbs.push(carry as u32);
    proof {
        lemma_value_push(before, carry as u32);
    }
    trimmed(limbs)
}

} // verus!
