//! Primality: the sieve of Eratosthenes, prime enumeration, and prime
//! factorization by trial division and by a smallest-prime-factor table.

use std::collections::HashMap;

use vstd::prelude::*;

use vstd::arithmetic::div_mod::lemma_fundamental_div_mod;
use vstd::arithmetic::div_mod::lemma_mod_bound;
use vstd::arithmetic::power::pow;

use crate::number::divides;
use crate::number::lemma_divides_transitive;
use crate::number::lemma_mod_zero_divides;

verus! {

broadcast use vstd::arithmetic::mul::lemma_mul_is_commutative, vstd::std_specs::hash::group_hash_axioms;

/// `p` has no divisor other than 1 and itself.
pub open spec fn is_prime(p: int) -> bool {
    p >= 2 && forall|d: int| 2 <= d < p ==> #[trigger] (p % d) != 0
}

/// `q` has no proper divisor below `bound` (other than itself).
spec fn no_divisor_below(q: int, bound: int) -> bool {
    forall|d: int| 2 <= d < bound && d != q ==> #[trigger] (q % d) != 0
}

/// Every integer at least 2 has a prime divisor no larger than itself.
pub proof fn lemma_exists_prime_divisor(m: int)
    requires
        m >= 2,
    ensures
        exists|q: int| is_prime(q) && #[trigger] divides(q, m) && q <= m,
    decreases m,
{
    if is_prime(m) {
        assert(m == 1 * m);
        assert(divides(m, m));
    } else {
        let d = choose|d: int| 2 <= d < m && #[trigger] (m % d) == 0;
        lemma_mod_zero_divides(d, m);
        lemma_exists_prime_divisor(d);
        let q = choose|q: int| is_prime(q) && #[trigger] divides(q, d) && q <= d;
        lemma_divides_transitive(q, d, m);
        assert(divides(q, m));
    }
}

/// Every composite has a prime divisor whose square does not exceed it.
proof fn lemma_composite_small_prime_factor(t: int)
    requires
        t >= 2,
        !is_prime(t),
    ensures
        exists|q: int|
            is_prime(q) && #[trigger] (t % q) == 0 && q * q <= t && 2 <= q < t,
{
    let d = choose|d: int| 2 <= d < t && #[trigger] (t % d) == 0;
    lemma_fundamental_div_mod(t, d);
    let e = t / d;
    assert(t == d * e);
    assert(e >= 2) by (nonlinear_arith)
        requires
            t == d * e,
            2 <= d < t,
    ;
    let small = if d <= e {
        d
    } else {
        e
    };
    assert(small * small <= t) by (nonlinear_arith)
        requires
            t == d * e,
            2 <= d,
            2 <= e,
            small == if d <= e {
                d
            } else {
                e
            },
    ;
    lemma_exists_prime_divisor(small);
    let q = choose|q: int| is_prime(q) && #[trigger] divides(q, small) && q <= small;
    if small == d {
        lemma_divides_transitive(q, d, t);
    } else {
        assert(t == e * d);
        assert(divides(e, t));
        lemma_divides_transitive(q, e, t);
    }
    lemma_mod_zero_divides(q, t);
    assert(t % q == 0);
    assert(q * q <= small * small) by (nonlinear_arith)
        requires
            2 <= q,
            q <= small,
    ;
    assert(q < t) by (nonlinear_arith)
        requires
            q * q <= t,
            q >= 2,
    ;
}

/// Sieve of Eratosthenes: a table where entry `q` says whether `q` is prime,
/// for every `q` up to `n`.
#[verifier::loop_isolation(false)]
pub fn sieve_of_eratosthenes(n: usize) -> (tbl: Vec<bool>)
    requires
        n >= 1,
        n < usize::MAX,
    ensures
        tbl@.len() == n + 1,
        forall|q: int| 0 <= q <= n ==> ((#[trigger] tbl@[q]) <==> is_prime(q)),
{
    let mut tbl: Vec<bool> = Vec::new();
    let mut i: usize = 0;
    while i <= n
        invariant
            i <= n + 1,
            tbl@.len() == i,
            forall|q: int| 0 <= q < i ==> (#[trigger] tbl@[q]) == (q >= 2),
        decreases n + 1 - i,
    {
        tbl.push(i >= 2);
        i += 1;
    }
    let mut p: usize = 2;
    while p < n
        invariant
            2 <= p,
            n >= 1,
            tbl@.len() == n + 1,
            forall|q: int|
                0 <= q <= n ==> ((#[trigger] tbl@[q]) <==> (q >= 2 && no_divisor_below(
                    q,
                    p as int,
                ))),
        decreases n - p,
    {
        if tbl[p] {
            let mut q: usize = p;
            while q <= n - p
                invariant
                    2 <= p < n,
                    p <= q,
                    q <= n,
                    tbl@.len() == n + 1,
                    (q as int) % (p as int) == 0,
                    forall|m: int|
                        0 <= m <= n ==> ((#[trigger] tbl@[m]) <==> (m >= 2 && no_divisor_below(
                            m,
                            p as int,
                        ) && !((m as int) % (p as int) == 0 && p < m <= q))),
                decreases n - q,
            {
                let ghost q_old = q as int;
                q += p;
                tbl[q] = false;
                proof {
                    vstd::arithmetic::div_mod::lemma_mod_adds(q_old, p as int, p as int);
                    vstd::arithmetic::div_mod::lemma_mod_self_0(p as int);
                    assert forall|m: int|
                        0 <= m <= n && m != q && #[trigger] (m % (p as int)) == 0 && p < m && m
                            <= q implies m <= q_old by {
                        if m > q_old {
                            lemma_fundamental_div_mod(m, p as int);
                            lemma_fundamental_div_mod(q as int, p as int);
                            assert(m == q) by (nonlinear_arith)
                                requires
                                    m == (p as int) * (m / (p as int)),
                                    q as int == (p as int) * ((q as int) / (p as int)),
                                    q_old == q - p,
                                    q_old < m <= q as int,
                                    p >= 2,
                            ;
                        }
                    }
                }
            }
            proof {
                lemma_fundamental_div_mod(q as int, p as int);
                assert forall|m: int|
                    0 <= m <= n && (tbl@[m] <==> (m >= 2 && no_divisor_below(m, p as int) && !((
                    m as int) % (p as int) == 0 && p < m <= q))) implies ((#[trigger] tbl@[m]) <==> (
                m >= 2 && no_divisor_below(m, p as int + 1))) by {
                    if m >= 2 && no_divisor_below(m, p as int) {
                        if (m as int) % (p as int) == 0 && p as int != m {
                            lemma_fundamental_div_mod(m, p as int);
                            lemma_mod_bound(m, p as int);
                            let f = m / (p as int);
                            assert(m > p) by (nonlinear_arith)
                                requires
                                    m == (p as int) * f + m % (p as int),
                                    m % (p as int) == 0,
                                    m >= 2,
                                    p >= 2,
                                    m != p as int,
                            ;
                            assert(m <= q) by (nonlinear_arith)
                                requires
                                    m == (p as int) * f + m % (p as int),
                                    m % (p as int) == 0,
                                    (q as int) % (p as int) == 0,
                                    q as int == (p as int) * ((q as int) / (p as int)) + (
                                    q as int) % (p as int),
                                    m > p,
                                    m <= n,
                                    n < q + p,
                                    p >= 2,
                            ;
                        }
                    }
                }
            }
        } else {
            proof {
                assert(!no_divisor_below(p as int, p as int));
                let d0 = choose|d: int|
                    2 <= d < p as int && d != p as int && #[trigger] ((p as int) % d) == 0;
                lemma_mod_zero_divides(d0, p as int);
                assert forall|m: int|
                    0 <= m <= n && m >= 2 && no_divisor_below(m, p as int) && #[trigger] (m % (
                p as int)) == 0 implies m == p as int by {
                    if m != p as int {
                        lemma_fundamental_div_mod(m, p as int);
                        lemma_mod_zero_divides(p as int, m);
                        lemma_divides_transitive(d0, p as int, m);
                        lemma_mod_zero_divides(d0, m);
                        assert(d0 != m) by (nonlinear_arith)
                            requires
                                divides(p as int, m),
                                m != p as int,
                                m >= 2,
                                2 <= d0 < p,
                                m % (p as int) == 0,
                                m == ((m as int) / (p as int)) * (p as int),
                        ;
                        assert(false);
                    }
                }
            }
        }
        p += 1;
    }
    proof {
        assert forall|q: int| 0 <= q <= n implies ((#[trigger] tbl@[q]) <==> is_prime(q)) by {
            if q >= 2 {
                if no_divisor_below(q, p as int) && !is_prime(q) {
                    let d = choose|d: int| 2 <= d < q && #[trigger] (q % d) == 0;
                    assert(d < p as int);
                    assert(false);
                }
                if is_prime(q) {
                    assert forall|d: int| 2 <= d < p as int && d != q implies #[trigger] (q % d)
                        != 0 by {
                        if d > q {
                            vstd::arithmetic::div_mod::lemma_small_mod(q as nat, d as nat);
                        }
                    }
                }
            }
        }
    }
    tbl
}

/// The primes up to `n`, in strictly increasing order.
#[verifier::loop_isolation(false)]
pub fn primes(n: usize) -> (ps: Vec<usize>)
    requires
        n >= 1,
        n < usize::MAX,
    ensures
        forall|v: usize| #[trigger] ps@.contains(v) <==> (v <= n && is_prime(v as int)),
        forall|k1: int, k2: int| 0 <= k1 < k2 < ps@.len() ==> ps@[k1] < ps@[k2],
        forall|k: int|
            0 <= k < ps@.len() ==> is_prime((#[trigger] ps@[k]) as int) && ps@[k] <= n,
{
    let tbl = sieve_of_eratosthenes(n);
    let mut ps: Vec<usize> = Vec::new();
    let mut v: usize = 0;
    while v < n + 1
        invariant
            v <= n + 1,
            n >= 1,
            tbl@.len() == n + 1,
            forall|q: int| 0 <= q <= n ==> ((#[trigger] tbl@[q]) <==> is_prime(q)),
            forall|x: usize| #[trigger] ps@.contains(x) <==> (x < v && is_prime(x as int)),
            forall|k: int| 0 <= k < ps@.len() ==> (#[trigger] ps@[k]) < v,
            forall|k1: int, k2: int| 0 <= k1 < k2 < ps@.len() ==> ps@[k1] < ps@[k2],
        decreases n + 1 - v,
    {
        if tbl[v] {
            let ghost before = ps@;
            ps.push(v);
            proof {
                assert(forall|j: int| 0 <= j < before.len() ==> ps@[j] == before[j]);
                assert(ps@.last() == v);
                assert(forall|x: usize|
                    #[trigger] ps@.contains(x) <==> (before.contains(x) || x == v));
            }
        }
        v += 1;
    }
    proof {
        assert forall|k: int|
            0 <= k < ps@.len() implies is_prime((#[trigger] ps@[k]) as int) && ps@[k] <= n by {
            assert(ps@.contains(ps@[k]));
        }
    }
    ps
}

/// Product of prime powers in a factor list.
pub open spec fn prod_pows(s: Seq<(usize, usize)>) -> int
    decreases s.len(),
{
    if s.len() == 0 {
        1
    } else {
        prod_pows(s.drop_last()) * pow(s.last().0 as int, s.last().1 as nat)
    }
}

/// Prime factorization by trial division: strictly increasing prime bases
/// with positive exponents whose prime-power product is exactly `n`.
#[verifier::loop_isolation(false)]
pub fn factors_trial_division(n: usize) -> (factors: Vec<(usize, usize)>)
    requires
        n >= 1,
        n < usize::MAX,
    ensures
        forall|k: int|
            0 <= k < factors@.len() ==> is_prime((#[trigger] factors@[k]).0 as int)
                && factors@[k].1 >= 1,
        forall|k1: int, k2: int|
            0 <= k1 < k2 < factors@.len() ==> factors@[k1].0 < factors@[k2].0,
        prod_pows(factors@) == n as int,
{
    let ps = primes(n);
    let mut factors: Vec<(usize, usize)> = Vec::new();
    let mut m = n;
    let mut idx: usize = 0;
    while idx < ps.len()
        invariant
            n >= 1,
            1 <= m <= n,
            forall|v: usize| #[trigger] ps@.contains(v) <==> (v <= n && is_prime(v as int)),
            forall|k1: int, k2: int| 0 <= k1 < k2 < ps@.len() ==> ps@[k1] < ps@[k2],
            forall|k: int|
                0 <= k < ps@.len() ==> is_prime((#[trigger] ps@[k]) as int) && ps@[k] <= n,
            idx <= ps@.len(),
            prod_pows(factors@) * m == n as int,
            forall|j: int| 0 <= j < idx ==> (m as int) % ((#[trigger] ps@[j]) as int) != 0,
            forall|k: int|
                0 <= k < factors@.len() ==> is_prime((#[trigger] factors@[k]).0 as int)
                    && factors@[k].1 >= 1,
            forall|k1: int, k2: int|
                0 <= k1 < k2 < factors@.len() ==> factors@[k1].0 < factors@[k2].0,
            factors@.len() > 0 && idx < ps@.len() ==> factors@.last().0 < ps@[idx as int],
        decreases ps@.len() - idx,
    {
        let p = ps[idx];
        proof {
            assert(ps@.contains(ps@[idx as int]));
        }
        let ghost m_entry = m;
        let mut count: usize = 0;
        proof {
            vstd::arithmetic::power::lemma_pow0(p as int);
        }
        while m % p == 0
            invariant
                is_prime(p as int),
                1 <= m,
                m <= m_entry <= n,
                (m as int) * pow(p as int, count as nat) == m_entry as int,
                count as int + m as int <= m_entry as int,
            decreases m,
        {
            proof {
                lemma_fundamental_div_mod(m as int, p as int);
                vstd::arithmetic::power::lemma_pow_adds(p as int, count as nat, 1nat);
                vstd::arithmetic::power::lemma_pow1(p as int);
                assert(pow(p as int, (count + 1) as nat) == (p as int) * pow(
                    p as int,
                    count as nat,
                )) by (nonlinear_arith)
                    requires
                        pow(p as int, (count + 1) as nat) == pow(p as int, count as nat) * pow(
                            p as int,
                            1nat,
                        ),
                        pow(p as int, 1nat) == p as int,
                ;
                assert((m / p) as int * pow(p as int, (count + 1) as nat) == m_entry as int)
                    by (nonlinear_arith)
                    requires
                        m as int == (p as int) * ((m as int) / (p as int)),
                        (m as int) * pow(p as int, count as nat) == m_entry as int,
                        pow(p as int, (count + 1) as nat) == (p as int) * pow(
                            p as int,
                            count as nat,
                        ),
                ;
                assert(1 <= (m as int) / (p as int) && 2 * ((m as int) / (p as int)) <= m as int)
                    by (nonlinear_arith)
                    requires
                        m as int == (p as int) * ((m as int) / (p as int)),
                        m >= 1,
                        p >= 2,
                ;
            }
            m = m / p;
            count += 1;
        }
        if count > 0 {
            let ghost factors_before = factors@;
            factors.push((p, count));
            proof {
                assert(factors@.drop_last() =~= factors_before);
                assert(prod_pows(factors@) * m == n as int) by (nonlinear_arith)
                    requires
                        prod_pows(factors@) == prod_pows(factors_before) * pow(
                            p as int,
                            count as nat,
                        ),
                        (m as int) * pow(p as int, count as nat) == m_entry as int,
                        prod_pows(factors_before) * m_entry == n as int,
                ;
            }
        }
        proof {
            assert forall|j: int|
                0 <= j < idx + 1 implies (m as int) % ((#[trigger] ps@[j]) as int) != 0 by {
                if j < idx {
                    if (m as int) % (ps@[j] as int) == 0 {
                        lemma_mod_zero_divides(ps@[j] as int, m as int);
                        assert(m_entry as int == (m as int) * pow(p as int, count as nat));
                        assert(divides(m as int, m_entry as int));
                        lemma_divides_transitive(ps@[j] as int, m as int, m_entry as int);
                        lemma_mod_zero_divides(ps@[j] as int, m_entry as int);
                        assert(false);
                    }
                }
            }
        }
        idx += 1;
    }
    proof {
        if m >= 2 {
            lemma_exists_prime_divisor(m as int);
            let q = choose|q: int| is_prime(q) && #[trigger] divides(q, m as int) && q <= m;
            assert(2 <= q <= n);
            assert((q as usize) as int == q);
            assert(is_prime((q as usize) as int));
            assert(ps@.contains(q as usize));
            let j = choose|j: int| 0 <= j < ps@.len() && ps@[j] == q as usize;
            assert((m as int) % (ps@[j] as int) != 0);
            lemma_mod_zero_divides(q, m as int);
            assert(false);
        }
        assert(prod_pows(factors@) * 1 == prod_pows(factors@));
    }
    factors
}

/// Product over a map of prime exponents, taken over all keys below `b`.
pub open spec fn map_prod(m: Map<usize, usize>, b: int) -> int
    decreases b,
{
    if b <= 0 {
        1
    } else {
        map_prod(m, b - 1) * (if m.contains_key((b - 1) as usize) {
            pow((b - 1) as int, m[(b - 1) as usize] as nat)
        } else {
            1
        })
    }
}

proof fn lemma_map_prod_agree(m1: Map<usize, usize>, m2: Map<usize, usize>, b: int)
    requires
        forall|k: usize|
            (k as int) < b ==> ((#[trigger] m1.contains_key(k)) <==> m2.contains_key(k))
                && (m1.contains_key(k) ==> m1[k] == m2[k]),
    ensures
        map_prod(m1, b) == map_prod(m2, b),
    decreases b,
{
    if b > 0 {
        lemma_map_prod_agree(m1, m2, b - 1);
    }
}

proof fn lemma_map_prod_insert_new(m: Map<usize, usize>, p: usize, v: usize, b: int)
    requires
        !m.contains_key(p),
        (p as int) < b,
        b <= usize::MAX as int + 1,
    ensures
        map_prod(m.insert(p, v), b) == map_prod(m, b) * pow(p as int, v as nat),
    decreases b,
{
    let m2 = m.insert(p, v);
    if p as int == b - 1 {
        lemma_map_prod_agree(m, m2, b - 1);
        assert((b - 1) as usize == p);
        assert(map_prod(m2, b) == map_prod(m2, b - 1) * pow(p as int, v as nat));
    } else {
        lemma_map_prod_insert_new(m, p, v, b - 1);
        let f = if m.contains_key((b - 1) as usize) {
            pow((b - 1) as int, m[(b - 1) as usize] as nat)
        } else {
            1
        };
        assert(map_prod(m2, b) == map_prod(m2, b - 1) * f);
        assert((map_prod(m, b - 1) * pow(p as int, v as nat)) * f == (map_prod(m, b - 1) * f)
            * pow(p as int, v as nat)) by (nonlinear_arith);
    }
}

proof fn lemma_map_prod_insert_incr(m: Map<usize, usize>, p: usize, b: int)
    requires
        m.contains_key(p),
        m[p] < usize::MAX,
        (p as int) < b,
        b <= usize::MAX as int + 1,
    ensures
        map_prod(m.insert(p, (m[p] + 1) as usize), b) == map_prod(m, b) * (p as int),
    decreases b,
{
    let m2 = m.insert(p, (m[p] + 1) as usize);
    if p as int == b - 1 {
        lemma_map_prod_agree(m, m2, b - 1);
        assert((b - 1) as usize == p);
        vstd::arithmetic::power::lemma_pow_adds(p as int, m[p] as nat, 1nat);
        vstd::arithmetic::power::lemma_pow1(p as int);
        assert(pow(p as int, ((m[p] + 1) as usize) as nat) == (p as int) * pow(
            p as int,
            m[p] as nat,
        )) by (nonlinear_arith)
            requires
                pow(p as int, ((m[p] + 1) as usize) as nat) == pow(p as int, m[p] as nat) * pow(
                    p as int,
                    1nat,
                ),
                pow(p as int, 1nat) == p as int,
        ;
        assert(map_prod(m2, b) == map_prod(m2, b - 1) * ((p as int) * pow(p as int, m[p] as nat)));
        assert(map_prod(m2, b - 1) * ((p as int) * pow(p as int, m[p] as nat)) == (map_prod(
            m2,
            b - 1,
        ) * pow(p as int, m[p] as nat)) * (p as int)) by (nonlinear_arith);
    } else {
        lemma_map_prod_insert_incr(m, p, b - 1);
        let f = if m.contains_key((b - 1) as usize) {
            pow((b - 1) as int, m[(b - 1) as usize] as nat)
        } else {
            1
        };
        assert(map_prod(m2, b) == map_prod(m2, b - 1) * f);
        assert((map_prod(m, b - 1) * (p as int)) * f == (map_prod(m, b - 1) * f) * (p as int))
            by (nonlinear_arith);
    }
}

proof fn lemma_map_prod_empty(b: int)
    ensures
        map_prod(Map::<usize, usize>::empty(), b) == 1,
    decreases b,
{
    if b > 0 {
        lemma_map_prod_empty(b - 1);
    }
}

/// Fast prime factorization using a table of smallest prime factors: every
/// key of the result is a prime at most `n`, every exponent is positive, and
/// the prime powers multiply back to `n`.
#[verifier::loop_isolation(false)]
pub fn factors_osa_k(n: usize) -> (factors: HashMap<usize, usize>)
    requires
        n < usize::MAX,
    ensures
        forall|p: usize|
            #[trigger] factors@.contains_key(p) ==> is_prime(p as int) && factors@[p] >= 1 && p
                <= n,
        map_prod(factors@, n as int + 1) * (if n == 0 {
            0int
        } else {
            1int
        }) == n as int,
        n == 0 ==> factors@ == Map::<usize, usize>::empty(),
{
    let mut tbl: Vec<usize> = Vec::new();
    let mut i: usize = 0;
    while i <= n
        invariant
            i <= n + 1,
            tbl@.len() == i,
            forall|j: int| 0 <= j < i ==> (#[trigger] tbl@[j]) as int == j,
        decreases n + 1 - i,
    {
        tbl.push(i);
        i += 1;
    }
    let mut p: usize = 2;
    while n >= 2 && p <= n / p
        invariant
            2 <= p,
            tbl@.len() == n + 1,
            forall|j: int| 0 <= j <= n ==> (#[trigger] tbl@[j]) <= j,
            forall|j: int|
                0 <= j <= n ==> ((#[trigger] tbl@[j]) as int == j || (2 <= tbl@[j] && is_prime(
                    tbl@[j] as int,
                ) && (j as int) % (tbl@[j] as int) == 0)),
            forall|j: int, q: int|
                #![trigger tbl@[j], j % q]
                2 <= j <= n && tbl@[j] as int == j && 2 <= q < p && is_prime(q) && j % q == 0
                    ==> q == j,
        decreases n + 2 - p,
    {
        proof {
            lemma_fundamental_div_mod(n as int, p as int);
            lemma_mod_bound(n as int, p as int);
            assert((p as int) * (p as int) <= n as int) by (nonlinear_arith)
                requires
                    p as int >= 2,
                    p as int <= (n as int) / (p as int),
                    n as int == (p as int) * ((n as int) / (p as int)) + (n as int) % (p as int),
                    (n as int) % (p as int) >= 0,
            ;
            assert((p as int) < n as int) by (nonlinear_arith)
                requires
                    (p as int) * (p as int) <= n as int,
                    p as int >= 2,
            ;
        }
        if tbl[p] == p {
            proof {
                if !is_prime(p as int) {
                    lemma_composite_small_prime_factor(p as int);
                    let q = choose|q: int|
                        is_prime(q) && #[trigger] ((p as int) % q) == 0 && q * q <= p as int && 2
                            <= q < p as int;
                    assert(false);
                }
            }
            let mut q: usize = p;
            while q <= n - p
                invariant
                    2 <= p,
                    p <= q <= n,
                    is_prime(p as int),
                    tbl@.len() == n + 1,
                    (q as int) % (p as int) == 0,
                    forall|j: int| 0 <= j <= n ==> (#[trigger] tbl@[j]) <= j,
                    forall|j: int|
                        0 <= j <= n ==> ((#[trigger] tbl@[j]) as int == j || (2 <= tbl@[j]
                            && is_prime(tbl@[j] as int) && (j as int) % (tbl@[j] as int) == 0)),
                    forall|j: int, qq: int|
                        #![trigger tbl@[j], j % qq]
                        2 <= j <= n && tbl@[j] as int == j && 2 <= qq < p && is_prime(qq) && j % qq
                            == 0 ==> qq == j,
                    forall|j: int|
                        2 <= j <= n && (#[trigger] tbl@[j]) as int == j && j % (p as int) == 0 && p
                            < j ==> j > q,
                decreases n - q,
            {
                let ghost q_old = q as int;
                q += p;
                if tbl[q] == q {
                    tbl[q] = p;
                }
                proof {
                    vstd::arithmetic::div_mod::lemma_mod_adds(q_old, p as int, p as int);
                    vstd::arithmetic::div_mod::lemma_mod_self_0(p as int);
                    assert forall|j: int|
                        0 <= j <= n && j != q && #[trigger] (j % (p as int)) == 0 && p < j && j
                            <= q implies j <= q_old by {
                        if j > q_old {
                            lemma_fundamental_div_mod(j, p as int);
                            lemma_fundamental_div_mod(q as int, p as int);
                            assert(j == q) by (nonlinear_arith)
                                requires
                                    j == (p as int) * (j / (p as int)),
                                    q as int == (p as int) * ((q as int) / (p as int)),
                                    q_old == q - p,
                                    q_old < j <= q as int,
                                    p >= 2,
                            ;
                        }
                    }
                }
            }
            proof {
                lemma_fundamental_div_mod(q as int, p as int);
                assert forall|j: int, qq: int|
                    #![trigger tbl@[j], j % qq]
                    2 <= j <= n && tbl@[j] as int == j && 2 <= qq < p + 1 && is_prime(qq) && j % qq
                        == 0 implies qq == j by {
                    if qq == p as int && j != p as int {
                        lemma_fundamental_div_mod(j, p as int);
                        let f = j / (p as int);
                        assert(j > p) by (nonlinear_arith)
                            requires
                                j == (p as int) * f + j % (p as int),
                                j % (p as int) == 0,
                                j >= 2,
                                p >= 2,
                                j != p as int,
                        ;
                        assert(j <= q) by (nonlinear_arith)
                            requires
                                j == (p as int) * f + j % (p as int),
                                j % (p as int) == 0,
                                (q as int) % (p as int) == 0,
                                q as int == (p as int) * ((q as int) / (p as int)) + (q as int) % (
                                p as int),
                                j > p,
                                j <= n,
                                n < q + p,
                                p >= 2,
                        ;
                        assert(false);
                    }
                }
            }
        } else {
            proof {
                assert forall|j: int, qq: int|
                    #![trigger tbl@[j], j % qq]
                    2 <= j <= n && tbl@[j] as int == j && 2 <= qq < p + 1 && is_prime(qq) && j % qq
                        == 0 implies qq == j by {
                    if qq == p as int {
                        assert(!is_prime(p as int)) by {
                            if is_prime(p as int) {
                                assert(tbl@[p as int] as int != p as int);
                                assert(2 <= tbl@[p as int]);
                                assert((p as int) % (tbl@[p as int] as int) == 0);
                                assert(tbl@[p as int] < p);
                            }
                        }
                    }
                }
            }
        }
        p += 1;
    }
    let ghost spf = tbl@;
    proof {
        if n >= 2 {
            lemma_fundamental_div_mod(n as int, p as int);
            lemma_mod_bound(n as int, p as int);
            assert((n as int) < (p as int) * (p as int)) by (nonlinear_arith)
                requires
                    (n as int) / (p as int) < p as int,
                    n as int == (p as int) * ((n as int) / (p as int)) + (n as int) % (p as int),
                    0 <= (n as int) % (p as int),
                    (n as int) % (p as int) < p as int,
                    p >= 2,
            ;
        }
        assert forall|j: int|
            2 <= j <= n implies is_prime((#[trigger] spf[j]) as int) && (j as int) % (
        spf[j] as int) == 0 && 2 <= spf[j] <= j by {
            if spf[j] as int == j {
                if !is_prime(j) {
                    lemma_composite_small_prime_factor(j);
                    let qq = choose|qq: int|
                        is_prime(qq) && #[trigger] (j % qq) == 0 && qq * qq <= j && 2 <= qq < j;
                    assert(qq < p as int) by (nonlinear_arith)
                        requires
                            qq * qq <= j,
                            j <= n,
                            (n as int) < (p as int) * (p as int),
                            qq >= 2,
                            p >= 2,
                    ;
                    assert(false);
                }
                assert(j % j == 0) by {
                    vstd::arithmetic::div_mod::lemma_mod_self_0(j);
                }
            }
        }
    }
    let mut factors: HashMap<usize, usize> = HashMap::new();
    let mut t = n;
    let mut steps: usize = 0;
    proof {
        lemma_map_prod_empty(n as int + 1);
    }
    while t > 1
        invariant
            tbl@ == spf,
            tbl@.len() == n + 1,
            t <= n,
            steps as int + t as int <= n as int,
            forall|j: int|
                2 <= j <= n ==> is_prime((#[trigger] spf[j]) as int) && (j as int) % (
                spf[j] as int) == 0 && 2 <= spf[j] <= j,
            forall|key: usize|
                #[trigger] factors@.contains_key(key) ==> is_prime(key as int) && 1 <= factors@[key]
                    <= steps && key <= n,
            map_prod(factors@, n as int + 1) * (t as int) == n as int,
        decreases t,
    {
        let pf = tbl[t];
        proof {
            assert(is_prime(spf[t as int] as int));
            lemma_mod_zero_divides(pf as int, t as int);
            lemma_fundamental_div_mod(t as int, pf as int);
        }
        let t2 = t / pf;
        proof {
            assert(t as int == (pf as int) * (t2 as int));
            assert(1 <= t2 as int && 2 * (t2 as int) <= t as int) by (nonlinear_arith)
                requires
                    t as int == (pf as int) * (t2 as int),
                    t >= 2,
                    pf >= 2,
            ;
        }
        let ghost factors_before = factors@;
        let newcount = match factors.get(&pf) {
            Some(c) => *c + 1,
            None => 1,
        };
        factors.insert(pf, newcount);
        proof {
            if factors_before.contains_key(pf) {
                lemma_map_prod_insert_incr(factors_before, pf, n as int + 1);
                assert(map_prod(factors@, n as int + 1) * (t2 as int) == n as int)
                    by (nonlinear_arith)
                    requires
                        map_prod(factors@, n as int + 1) == map_prod(factors_before, n as int + 1)
                            * (pf as int),
                        map_prod(factors_before, n as int + 1) * (t as int) == n as int,
                        t as int == (pf as int) * (t2 as int),
                ;
            } else {
                lemma_map_prod_insert_new(factors_before, pf, 1, n as int + 1);
                vstd::arithmetic::power::lemma_pow1(pf as int);
                assert(map_prod(factors@, n as int + 1) * (t2 as int) == n as int)
                    by (nonlinear_arith)
                    requires
                        map_prod(factors@, n as int + 1) == map_prod(factors_before, n as int + 1)
                            * (pf as int),
                        map_prod(factors_before, n as int + 1) * (t as int) == n as int,
                        t as int == (pf as int) * (t2 as int),
                ;
            }
        }
        steps += 1;
        t = t2;
    }
    proof {
        if n == 0 {
            assert(factors@ =~= Map::<usize, usize>::empty());
        }
        let mp = map_prod(factors@, n as int + 1);
        if t == 0 {
            assert(mp * 0int == 0) by (nonlinear_arith);
            assert(n == 0);
        } else {
            assert(t == 1);
            assert(n >= 1);
            assert(mp * 1int == mp) by (nonlinear_arith);
        }
    }
    factors
}

} // verus!
