//! The sieve of Eratosthenes.
use vstd::prelude::*;

verus! {

/// `d` is a positive divisor of `n`.
pub open spec fn divides(d: int, n: int) -> bool {
    d > 0 && n % d == 0
}

/// `n` is a prime number.
pub open spec fn is_prime(n: int) -> bool {
    2 <= n && forall|d: int| 2 <= d < n ==> !#[trigger] divides(d, n)
}

/// `k` is one of the numbers that the sieve keeps: a prime number, or 1.
pub open spec fn survives(k: int) -> bool {
    k == 1 || is_prime(k)
}

/// `i` has no divisor from 2 up to, but not including, the smaller of `bound` and `i`.
spec fn sifted(i: int, bound: int) -> bool {
    forall|d: int| 2 <= d < bound && d < i ==> !#[trigger] divides(d, i)
}

proof fn lemma_cofactor(d: int, i: int)
    requires
        2 <= d < i,
        divides(d, i),
    ensures
        2 <= i / d < i,
        d * (i / d) == i,
        divides(i / d, i),
{
    let e = i / d;
    assert(i == d * e + i % d) by {
        vstd::arithmetic::div_mod::lemma_fundamental_div_mod(i, d);
    }
    assert(2 <= e < i) by (nonlinear_arith)
        requires
            i == d * e,
            2 <= d < i,
    ;
    assert(i % e == 0) by {
        assert(i == e * d) by (nonlinear_arith)
            requires
                i == d * e,
        ;
        vstd::arithmetic::div_mod::lemma_mod_multiples_basic(d, e);
    }
}

proof fn lemma_divides_trans(d: int, p: int, i: int)
    requires
        divides(d, p),
        divides(p, i),
    ensures
        divides(d, i),
{
    let a = p / d;
    let b = i / p;
    vstd::arithmetic::div_mod::lemma_fundamental_div_mod(p, d);
    vstd::arithmetic::div_mod::lemma_fundamental_div_mod(i, p);
    assert(i == (b * a) * d) by (nonlinear_arith)
        requires
            p == d * a,
            i == p * b,
    ;
    vstd::arithmetic::div_mod::lemma_mod_multiples_basic(b * a, d);
}

proof fn lemma_next_multiple(p: int, m: int, i: int)
    requires
        divides(p, m),
        divides(p, i),
        m <= i < m + p,
    ensures
        i == m,
{
    let a = m / p;
    let b = i / p;
    vstd::arithmetic::div_mod::lemma_fundamental_div_mod(m, p);
    vstd::arithmetic::div_mod::lemma_fundamental_div_mod(i, p);
    assert(a == b) by (nonlinear_arith)
        requires
            m == p * a,
            i == p * b,
            m <= i < m + p,
            p > 0,
    ;
}

proof fn lemma_multiple_steps(p: int, m: int)
    requires
        divides(p, m),
    ensures
        divides(p, m + p),
        divides(p, p * p),
{
    vstd::arithmetic::div_mod::lemma_mod_add_multiples_vanish(m, p);
    vstd::arithmetic::div_mod::lemma_mod_multiples_basic(p, p);
}

/// Below the square of `bound`, the numbers without a small divisor are 1 and the primes.
proof fn lemma_sifted_below_square(i: int, bound: int)
    requires
        1 <= i < bound * bound,
        2 <= bound,
    ensures
        sifted(i, bound) <==> survives(i),
{
    if sifted(i, bound) && i >= 2 {
        assert forall|d: int| 2 <= d < i implies !#[trigger] divides(d, i) by {
            if divides(d, i) {
                lemma_cofactor(d, i);
                let e = i / d;
                if d >= bound {
                    assert(e < bound) by (nonlinear_arith)
                        requires
                            d * e == i,
                            i < bound * bound,
                            d >= bound,
                            bound >= 2,
                            e >= 2,
                    ;
                    assert(divides(e, i));
                }
            }
        }
    }
}

/// What crossing out the multiples of `p` from its square on does to numbers without a divisor
/// below `p`.
proof fn lemma_sift_step(i: int, p: int)
    requires
        1 <= i,
        2 <= p,
    ensures
        sifted(p, p) ==> (sifted(i, p + 1) <==> sifted(i, p) && !(divides(p, i) && p * p <= i)),
        !sifted(p, p) ==> (sifted(i, p + 1) <==> sifted(i, p)),
{
    if sifted(i, p) {
        if p < i && divides(p, i) {
            lemma_cofactor(p, i);
            let e = i / p;
            if sifted(p, p) {
                if e < p {
                    assert(divides(e, i));
                }
                assert(p * p <= i) by (nonlinear_arith)
                    requires
                        e >= p,
                        p * e == i,
                        p >= 2,
                ;
            } else {
                let d = choose|d: int| 2 <= d < p && #[trigger] divides(d, p);
                lemma_divides_trans(d, p, i);
            }
        } else {
            assert forall|d: int| 2 <= d < p + 1 && d < i implies !#[trigger] divides(d, i) by {}
            assert(p * p > p) by (nonlinear_arith)
                requires
                    p >= 2,
            ;
        }
    }
}

/// The numbers from 1 up to, but not including, `n` that are prime or 1, in increasing order.
pub fn sieve(n: u32) -> (primes: Vec<u32>)
    ensures
        forall|i: int, j: int| 0 <= i < j < primes.len() ==> primes[i] < primes[j],
        forall|k: u32| primes@.contains(k) <==> 1 <= k < n && survives(k as int),
{
    if n == 0 {
        return Vec::new();
    }
    let size: usize = n as usize;
    let bound: u64 = n as u64;
    let mut flags: Vec<bool> = vec![true; size];
    flags.set(0, false);
    let mut p: u64 = 2;
    while p * p < bound
        invariant
            2 <= p <= 0x1_0000,
            p * p <= 0x1_0000_0000,
            bound == n,
            size == n,
            flags.len() == size,
            !flags[0],
            forall|i: int| 1 <= i < n ==> flags[i] == sifted(i, p as int),
        decreases 0x1_0000 - p,
    {
        assert(p < 0x1_0000 && p < bound) by (nonlinear_arith)
            requires
                p * p < bound,
                bound < 0x1_0000_0000,
                2 <= p,
        ;
        if flags[p as usize] {
            let mut m: u64 = p * p;
            proof {
                lemma_multiple_steps(p as int, 0);
            }
            while m < bound
                invariant
                    2 <= p < 0x1_0000,
                    p * p <= m < 0x1_0001_0000,
                    divides(p as int, m as int),
                    bound == n,
                    size == n,
                    flags.len() == size,
                    !flags[0],
                    forall|i: int|
                        1 <= i < n ==> flags[i] == (sifted(i, p as int) && !(divides(p as int, i)
                            && p * p <= i < m)),
                decreases 0x1_0001_0000 - m,
            {
                flags.set(m as usize, false);
                proof {
                    lemma_multiple_steps(p as int, m as int);
                    assert forall|i: int| 1 <= i < n implies flags[i] == (sifted(i, p as int) && !(
                    divides(p as int, i) && p * p <= i < m + p)) by {
                        if i != m && divides(p as int, i) && m <= i < m + p {
                            lemma_next_multiple(p as int, m as int, i);
                        }
                    }
                }
                m += p;
            }
            proof {
                assert(sifted(p as int, p as int));
                assert forall|i: int| 1 <= i < n implies flags[i] == sifted(i, p + 1) by {
                    lemma_sift_step(i, p as int);
                }
            }
        } else {
            proof {
                assert(!sifted(p as int, p as int));
                assert forall|i: int| 1 <= i < n implies flags[i] == sifted(i, p + 1) by {
                    lemma_sift_step(i, p as int);
                }
            }
        }
        assert((p + 1) * (p + 1) <= 0x1_0000_0000) by (nonlinear_arith)
            requires
                0 <= p < 0x1_0000,
        ;
        p += 1;
    }
    proof {
        assert forall|i: int| 1 <= i < n implies flags[i] == survives(i) by {
            lemma_sifted_below_square(i, p as int);
        }
    }
    let mut primes: Vec<u32> = Vec::new();
    let mut i: usize = 0;
    while i < size
        invariant
            0 <= i <= size,
            size == n,
            flags.len() == size,
            forall|a: int, b: int| 0 <= a < b < primes.len() ==> primes[a] < primes[b],
            forall|a: int| 0 <= a < primes.len() ==> primes[a] < i && flags[primes[a] as int],
            forall|k: int| 0 <= k < i && flags[k] ==> primes@.contains(k as u32),
        decreases size - i,
    {
        if flags[i] {
            let ghost before = primes@;
            primes.push(i as u32);
            proof {
                assert(primes@[before.len() as int] == i as u32);
                assert forall|k: int| 0 <= k < i + 1 && flags[k] implies primes@.contains(
                    k as u32,
                ) by {
                    if k < i {
                        let a = choose|a: int| 0 <= a < before.len() && before[a] == k as u32;
                        assert(primes@[a] == k as u32);
                    }
                }
            }
        }
        i += 1;
    }
    proof {
        assert forall|k: u32| primes@.contains(k) <==> 1 <= k < n && survives(k as int) by {
            if primes@.contains(k) {
                let a = choose|a: int| 0 <= a < primes.len() && primes[a] == k;
                assert(flags[primes[a] as int]);
            }
            if 1 <= k < n && survives(k as int) {
                assert(flags[k as int]);
            }
        }
    }
    primes
}

} // verus!
