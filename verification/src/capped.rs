//! Sizes that stop growing at the largest machine size.

use vstd::prelude::*;

verus! {

/// A size, or the largest machine size where it exceeds that.
pub open spec fn capped(size: nat) -> nat {
    if size <= usize::MAX {
        size
    } else {
        usize::MAX as nat
    }
}

/// A size times a factor, plus a constant.
pub fn scaled(len: usize, factor: usize, more: usize) -> (size: usize)
    ensures
        size == capped((len * factor + more) as nat),
{
    match len.checked_mul(factor) {
        Some(product) => product.saturating_add(more),
        None => usize::MAX,
    }
}

/// The product of two sizes.
pub fn times(a: usize, b: usize, Ghost(x): Ghost<nat>, Ghost(y): Ghost<nat>) -> (size: usize)
    requires
        a == capped(x),
        b == capped(y),
    ensures
        size == capped(x * y),
{
    proof {
        assert(capped(capped(x) * capped(y)) == capped(x * y)) by {
            let m = usize::MAX as nat;
            let p = capped(x);
            let q = capped(y);
            if x <= m && y <= m {
            } else if x == 0 || y == 0 {
                assert(x * y == 0) by (nonlinear_arith)
                    requires
                        x == 0 || y == 0,
                ;
                assert(p * q == 0) by (nonlinear_arith)
                    requires
                        p == 0 || q == 0,
                ;
            } else {
                assert(p * q >= m) by (nonlinear_arith)
                    requires
                        p >= 1,
                        q >= 1,
                        p == m || q == m,
                ;
                assert(x * y >= m) by (nonlinear_arith)
                    requires
                        x >= 1,
                        y >= 1,
                        x >= m || y >= m,
                ;
            }
        }
    }
    match a.checked_mul(b) {
        Some(product) => product,
        None => usize::MAX,
    }
}

} // verus!
