//! Elementary number theory: greatest common divisor, least common multiple,
//! and divisor enumeration.

use vstd::prelude::*;

use vstd::arithmetic::div_mod::lemma_fundamental_div_mod;
use vstd::arithmetic::div_mod::lemma_mod_multiples_basic;

verus! {

broadcast use vstd::arithmetic::mul::lemma_mul_is_commutative;

/// `d` divides `m`.
pub open spec fn divides(d: int, m: int) -> bool {
    exists|k: int| m == #[trigger] (k * d)
}

/// Euclid's recursion for the greatest common divisor.
pub open spec fn spec_gcd(a: nat, b: nat) -> nat
    decreases b,
{
    if b == 0 {
        a
    } else {
        spec_gcd(b, a % b)
    }
}

/// For a positive divisor, a zero remainder and divisibility coincide.
pub proof fn lemma_mod_zero_divides(d: int, m: int)
    requires
        d > 0,
    ensures
        (m % d == 0) <==> divides(d, m),
{
    lemma_fundamental_div_mod(m, d);
    if m % d == 0 {
        assert(m == (m / d) * d);
        assert(divides(d, m));
    }
    if divides(d, m) {
        let k = choose|k: int| m == #[trigger] (k * d);
        lemma_mod_multiples_basic(k, d);
    }
}

pub proof fn lemma_divides_transitive(a: int, b: int, c: int)
    requires
        divides(a, b),
        divides(b, c),
    ensures
        divides(a, c),
{
    let k1 = choose|k: int| b == #[trigger] (k * a);
    let k2 = choose|k: int| c == #[trigger] (k * b);
    assert(c == (k2 * k1) * a) by (nonlinear_arith)
        requires
            b == k1 * a,
            c == k2 * b,
    ;
}

/// A common divisor of `x` and `y` divides any combination `x + c * y`.
proof fn lemma_divides_linear(d: int, x: int, y: int, c: int)
    requires
        divides(d, x),
        divides(d, y),
    ensures
        divides(d, x + c * y),
{
    let k1 = choose|k: int| x == #[trigger] (k * d);
    let k2 = choose|k: int| y == #[trigger] (k * d);
    assert(x + c * y == (k1 + c * k2) * d) by (nonlinear_arith)
        requires
            x == k1 * d,
            y == k2 * d,
    ;
}

/// The gcd divides both of its arguments.
pub proof fn lemma_gcd_divides(a: nat, b: nat)
    ensures
        divides(spec_gcd(a, b) as int, a as int),
        divides(spec_gcd(a, b) as int, b as int),
    decreases b,
{
    if b == 0 {
        assert(a as int == 1 * (a as int));
        assert(0int == 0 * (a as int));
    } else {
        lemma_gcd_divides(b, a % b);
        let g = spec_gcd(b, a % b) as int;
        lemma_fundamental_div_mod(a as int, b as int);
        lemma_divides_linear(g, (a % b) as int, b as int, (a as int) / (b as int));
        assert(a as int == (a % b) as int + ((a as int) / (b as int)) * (b as int));
    }
}

/// Every common divisor of `a` and `b` divides their gcd.
pub proof fn lemma_gcd_greatest(a: nat, b: nat, d: int)
    requires
        divides(d, a as int),
        divides(d, b as int),
    ensures
        divides(d, spec_gcd(a, b) as int),
    decreases b,
{
    if b != 0 {
        lemma_fundamental_div_mod(a as int, b as int);
        lemma_divides_linear(d, a as int, b as int, -((a as int) / (b as int)));
        assert((a % b) as int == a as int + (-((a as int) / (b as int))) * (b as int))
            by (nonlinear_arith)
            requires
                a as int == (b as int) * ((a as int) / (b as int)) + ((a % b) as int),
        ;
        lemma_gcd_greatest(b, a % b, d);
    }
}

/// Greatest common divisor by Euclid's algorithm.  The result divides both
/// inputs and is divisible by every common divisor.
pub fn gcd(a: usize, b: usize) -> (r: usize)
    ensures
        r == spec_gcd(a as nat, b as nat),
        divides(r as int, a as int),
        divides(r as int, b as int),
        forall|d: int|
            divides(d, a as int) && divides(d, b as int) ==> #[trigger] divides(d, r as int),
    decreases b,
{
    proof {
        lemma_gcd_divides(a as nat, b as nat);
        assert forall|d: int|
            divides(d, a as int) && divides(d, b as int) implies #[trigger] divides(
            d,
            spec_gcd(a as nat, b as nat) as int,
        ) by {
            lemma_gcd_greatest(a as nat, b as nat, d);
        }
    }
    if b == 0 {
        a
    } else {
        gcd(b, a % b)
    }
}

/// Least common multiple, computed as `a / gcd(a, b) * b`.  The result times
/// the gcd is exactly `a * b`, and both inputs divide the result.
pub fn lcm(a: usize, b: usize) -> (r: usize)
    requires
        !(a == 0 && b == 0),
        ((a as int) / (spec_gcd(a as nat, b as nat) as int)) * (b as int) <= usize::MAX as int,
    ensures
        (r as int) * (spec_gcd(a as nat, b as nat) as int) == (a as int) * (b as int),
        divides(a as int, r as int),
        divides(b as int, r as int),
{
    let g = gcd(a, b);
    proof {
        if g == 0 {
            let k = choose|k: int| a as int == #[trigger] (k * 0);
            let k2 = choose|k: int| b as int == #[trigger] (k * 0);
            assert(false);
        }
        let ka = choose|k: int| a as int == #[trigger] (k * (g as int));
        let kb = choose|k: int| b as int == #[trigger] (k * (g as int));
        vstd::arithmetic::div_mod::lemma_div_multiples_vanish(ka, g as int);
        assert((a as int) / (g as int) == ka);
        assert((ka * (b as int)) * (g as int) == (a as int) * (b as int)) by (nonlinear_arith)
            requires
                a as int == ka * (g as int),
        ;
        assert(ka * (b as int) == kb * (a as int)) by (nonlinear_arith)
            requires
                a as int == ka * (g as int),
                b as int == kb * (g as int),
        ;
        assert(ka * (b as int) >= 0) by (nonlinear_arith)
            requires
                a as int == ka * (g as int),
                g as int > 0,
                a as int >= 0,
                b as int >= 0,
        ;
    }
    a / g * b
}

/// Whether `x` is recorded as a divisor by the time the scan has reached `i`:
/// either `x` itself or its cofactor `n / x` has already been passed.
pub open spec fn div_listed(n: usize, i: int, x: usize) -> bool {
    &&& 1 <= x <= n
    &&& (n as int) % (x as int) == 0
    &&& ((x as int) < i || (n as int) / (x as int) < i)
}

/// All divisors of `n`, each exactly once, discovered in cofactor pairs by
/// scanning candidates up to the square root of `n`.
pub fn divisors(n: usize) -> (res: Vec<usize>)
    ensures
        forall|x: usize|
            #[trigger] res@.contains(x) <==> (1 <= x <= n && (n as int) % (x as int) == 0),
        forall|k1: int, k2: int| 0 <= k1 < k2 < res@.len() ==> res@[k1] != res@[k2],
{
    let mut res: Vec<usize> = Vec::new();
    if n == 0 {
        return res;
    }
    let mut i: usize = 1;
    proof {
        assert forall|x: usize| !div_listed(n, 1, x) by {
            if 1 <= x <= n && (n as int) % (x as int) == 0 {
                lemma_fundamental_div_mod(n as int, x as int);
                vstd::arithmetic::div_mod::lemma_mod_bound(n as int, x as int);
                assert((n as int) / (x as int) >= 1) by (nonlinear_arith)
                    requires
                        n as int == (x as int) * ((n as int) / (x as int)) + (n as int) % (
                        x as int),
                        0 <= (n as int) % (x as int),
                        (n as int) % (x as int) < x as int,
                        1 <= x as int,
                        x as int <= n as int,
                ;
            }
        }
    }
    while i <= n / i
        invariant
            n >= 1,
            1 <= i,
            i <= n + 1,
            forall|x: usize| #[trigger] res@.contains(x) <==> div_listed(n, i as int, x),
            forall|k1: int, k2: int| 0 <= k1 < k2 < res@.len() ==> res@[k1] != res@[k2],
        decreases n + 1 - i,
    {
        proof {
            lemma_fundamental_div_mod(n as int, i as int);
            vstd::arithmetic::div_mod::lemma_mod_bound(n as int, i as int);
            assert((i as int) * (i as int) <= n as int) by (nonlinear_arith)
                requires
                    i as int >= 1,
                    i as int <= (n as int) / (i as int),
                    n >= 1,
                    n as int == (i as int) * ((n as int) / (i as int)) + (n as int) % (i as int),
                    (n as int) % (i as int) >= 0,
            ;
        }
        if n % i == 0 {
            let cof = n / i;
            proof {
                assert(n as int == (cof as int) * (i as int));
                assert(cof >= 1) by (nonlinear_arith)
                    requires
                        n as int == (cof as int) * (i as int),
                        n >= 1,
                        i >= 1,
                ;
                vstd::arithmetic::div_mod::lemma_div_multiples_vanish(i as int, cof as int);
                assert((n as int) / (cof as int) == i as int);
                assert(n as int == (i as int) * (cof as int));
                lemma_mod_zero_divides(cof as int, n as int);
                assert((n as int) % (cof as int) == 0);
                vstd::arithmetic::div_mod::lemma_div_nonincreasing(n as int, i as int);
                assert(i <= n);
                assert(cof <= n);
                assert(!res@.contains(i));
                assert(!res@.contains(cof));
                assert(div_listed(n, i as int + 1, i));
                assert(div_listed(n, i as int + 1, cof));
            }
            let ghost res_before = res@;
            res.push(i);
            if i != cof {
                res.push(cof);
            }
            proof {
                assert(forall|x: usize|
                    #[trigger] res@.contains(x) <==> (res_before.contains(x) || x == i || x
                        == cof)) by {
                    assert(forall|j: int|
                        0 <= j < res_before.len() ==> res@[j] == res_before[j]);
                    assert(res@[res_before.len() as int] == i);
                    assert(res@.last() == if i == cof {
                        i
                    } else {
                        cof
                    });
                }
                assert forall|x: usize| #[trigger]
                    res@.contains(x) <==> div_listed(n, i as int + 1, x) by {
                    if div_listed(n, i as int + 1, x) && !div_listed(n, i as int, x) && x != i {
                        lemma_fundamental_div_mod(n as int, x as int);
                        let q = (n as int) / (x as int);
                        assert(q == i as int);
                        assert(n as int == (x as int) * (i as int)) by (nonlinear_arith)
                            requires
                                n as int == (x as int) * q + (n as int) % (x as int),
                                (n as int) % (x as int) == 0,
                                q == i as int,
                        ;
                        assert(x as int == cof as int) by (nonlinear_arith)
                            requires
                                n as int == (x as int) * (i as int),
                                n as int == (cof as int) * (i as int),
                                i as int >= 1,
                        ;
                    }
                }
                assert forall|k1: int, k2: int|
                    0 <= k1 < k2 < res@.len() implies res@[k1] != res@[k2] by {
                    if k1 < res_before.len() {
                        assert(res@[k1] == res_before[k1]);
                        assert(res_before.contains(res_before[k1]));
                        if k2 >= res_before.len() {
                            assert(res@[k2] == i || res@[k2] == cof);
                        }
                    } else {
                        assert(res@[k1] == i && res@[k2] == cof && i != cof);
                    }
                }
            }
        } else {
            proof {
                assert forall|x: usize| div_listed(n, i as int + 1, x) implies div_listed(
                    n,
                    i as int,
                    x,
                ) by {
                    if (n as int) % (x as int) == 0 && 1 <= x <= n {
                        lemma_fundamental_div_mod(n as int, x as int);
                        let q = (n as int) / (x as int);
                        if x as int == i as int {
                            assert(false);
                        }
                        if q == i as int {
                            assert(n as int == (x as int) * (i as int)) by (nonlinear_arith)
                                requires
                                    n as int == (x as int) * q + (n as int) % (x as int),
                                    (n as int) % (x as int) == 0,
                                    q == i as int,
                            ;
                            lemma_mod_zero_divides(i as int, n as int);
                            assert(false);
                        }
                    }
                }
            }
        }
        proof {
            assert(i < usize::MAX) by (nonlinear_arith)
                requires
                    (i as int) * (i as int) <= n as int,
                    n as int <= usize::MAX as int,
                    i as int >= 1,
            ;
        }
        i += 1;
    }
    proof {
        assert forall|x: usize| (1 <= x <= n && (n as int) % (x as int) == 0) implies div_listed(
            n,
            i as int,
            x,
        ) by {
            if (x as int) >= i as int && (n as int) / (x as int) >= i as int {
                lemma_fundamental_div_mod(n as int, x as int);
                lemma_fundamental_div_mod(n as int, i as int);
                assert(false) by (nonlinear_arith)
                    requires
                        x as int >= i as int,
                        (n as int) / (x as int) >= i as int,
                        n as int == (x as int) * ((n as int) / (x as int)) + (n as int) % (
                        x as int),
                        (n as int) % (x as int) == 0,
                        n as int == (i as int) * ((n as int) / (i as int)) + (n as int) % (
                        i as int),
                        0 <= (n as int) % (i as int) < i as int,
                        (n as int) / (i as int) < i as int,
                        i >= 1,
                        x >= 1,
                ;
            }
        }
    }
    res
}

} // verus!
