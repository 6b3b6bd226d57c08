//! Primality, as the line-based prime-test server answers it.
use vstd::prelude::*;

verus! {

/// `i` is prime: at least two, with no divisor strictly between one and
/// itself.
pub open spec fn spec_is_prime(i: int) -> bool {
    i >= 2 && forall|d: int| 2 <= d < i ==> #[trigger] (i % d) != 0
}

/// Decides primality by trial division up to the square root.
pub fn is_prime(i: u64) -> (r: bool)
    ensures
        r == spec_is_prime(i as int),
{
    if i < 2 {
        return false;
    }
    let mut n: u64 = 2;
    while n <= i / n
        invariant
            2 <= n,
            i >= 2,
            forall|d: int| 2 <= d < n ==> #[trigger] ((i as int) % d) != 0,
        decreases i - n,
    {
        proof {
            assert(2 * n <= n * n <= i) by (nonlinear_arith)
                requires
                    n <= i / n && n >= 2 && i >= 2,
            ;
        }
        if i % n == 0 {
            proof {
                assert(!spec_is_prime(i as int)) by {
                    assert(2 <= n < i || n == i || n > i);
                    if n >= i {
                        assert(n <= i / n);
                        assert(n * n <= (i / n) * n <= i) by (nonlinear_arith)
                            requires
                                n <= i / n && n >= 1 && i >= 0,
                        ;
                        assert(i >= n * n >= 2 * n >= 2 * i) by (nonlinear_arith)
                            requires
                                n >= 2 && n >= i && i >= 2 && i >= n * n,
                        ;
                        assert(false);
                    }
                    assert((i as int) % (n as int) == 0);
                }
            }
            return false;
        }
        n += 1;
    }
    proof {
        assert(n > i / n);
        assert(n * n > i) by (nonlinear_arith)
            requires
                n > i / n && n >= 1 && i >= 0,
        ;
        assert forall|d: int| 2 <= d < i implies #[trigger] ((i as int) % d) != 0 by {
            if (i as int) % d == 0 {
                let e = (i as int) / d;
                vstd::arithmetic::div_mod::lemma_fundamental_div_mod(i as int, d);
                assert(i as int == d * e);
                assert(e >= 1) by (nonlinear_arith)
                    requires
                        i as int == d * e && d >= 2 && i >= 2,
                ;
                if e == 1 {
                    assert(i as int == d) by (nonlinear_arith)
                        requires
                            i as int == d * e && e == 1,
                    ;
                    assert(false);
                }
                assert(e >= 2);
                if d < n {
                    assert(false);
                } else {
                    assert(e < n) by (nonlinear_arith)
                        requires
                            i as int == d * e && d >= n && (n as int) * (n as int) > i as int && e
                                >= 2 && n >= 2,
                    ;
                    assert((i as int) % e == 0) by (nonlinear_arith)
                        requires
                            i as int == d * e && e >= 2,
                    ;
                    assert(false);
                }
            }
        }
    }
    true
}

} // verus!
