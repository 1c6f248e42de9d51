//! Generates prime numbers by trial division against the primes already
//! found, and factors small numbers with them.

use vstd::prelude::*;

verus! {

/// Is `n` a prime number?
pub open spec fn is_prime(n: int) -> bool {
    n >= 2 && forall|d: int| 2 <= d < n ==> #[trigger] (n % d) != 0
}

/// The product of a sequence of factors.
pub open spec fn product(s: Seq<usize>) -> int
    decreases s.len(),
{
    if s.len() == 0 {
        1
    } else {
        product(s.drop_last()) * s.last()
    }
}

/// Every composite number has a divisor whose square does not exceed it.
proof fn lemma_composite_small_divisor(n: int)
    requires
        n >= 2,
        !is_prime(n),
    ensures
        exists|d: int| 2 <= d && #[trigger] (n % d) == 0 && d * d <= n,
{
    let d0 = choose|d: int| 2 <= d < n && #[trigger] (n % d) == 0;
    vstd::arithmetic::div_mod::lemma_fundamental_div_mod(n, d0);
    let k = n / d0;
    assert(n == d0 * k);
    assert(k >= 2) by (nonlinear_arith)
        requires
            n == d0 * k,
            2 <= d0 < n,
            k >= 0,
    ;
    if d0 * d0 <= n {
        assert(2 <= d0 && n % d0 == 0 && d0 * d0 <= n);
    } else {
        assert(k * k <= n) by (nonlinear_arith)
            requires
                n == d0 * k,
                d0 * d0 > n,
                k >= 2,
                d0 >= 2,
        ;
        assert(n % k == 0) by {
            vstd::arithmetic::div_mod::lemma_fundamental_div_mod_converse_mod(n, k, d0, 0);
        }
        assert(2 <= k && n % k == 0 && k * k <= n);
    }
}

/// A number with no divisor whose square fits inside it is prime.
proof fn lemma_no_small_divisor_prime(n: int)
    requires
        n >= 2,
        forall|d: int| 2 <= d && d * d <= n ==> #[trigger] (n % d) != 0,
    ensures
        is_prime(n),
{
    if !is_prime(n) {
        lemma_composite_small_divisor(n);
        let d = choose|d: int| 2 <= d && #[trigger] (n % d) == 0 && d * d <= n;
        assert(false);
    }
}

/// Among the divisors of `num` at most `d`, some prime divisor also has a
/// square at most `num`.
proof fn lemma_min_divisor_prime(num: int, d: int)
    requires
        num >= 2,
        2 <= d,
        d * d <= num,
        num % d == 0,
    ensures
        exists|p: int|
            2 <= p && #[trigger] (num % p) == 0 && p * p <= num && is_prime(p) && p <= d,
    decreases d,
{
    if is_prime(d) {
        assert(2 <= d && num % d == 0 && d * d <= num && is_prime(d) && d <= d);
    } else {
        let e = choose|e: int| 2 <= e < d && #[trigger] (d % e) == 0;
        vstd::arithmetic::div_mod::lemma_fundamental_div_mod(d, e);
        let k = d / e;
        assert(d == e * k);
        vstd::arithmetic::div_mod::lemma_fundamental_div_mod(num, d);
        let m = num / d;
        assert(num == d * m);
        assert(num == (k * m) * e) by (nonlinear_arith)
            requires
                num == d * m,
                d == e * k,
        ;
        assert(num % e == 0) by {
            vstd::arithmetic::div_mod::lemma_fundamental_div_mod_converse_mod(num, e, k * m, 0);
        }
        assert(e * e <= num) by (nonlinear_arith)
            requires
                2 <= e < d,
                d * d <= num,
        ;
        lemma_min_divisor_prime(num, e);
        let p = choose|p: int|
            2 <= p && #[trigger] (num % p) == 0 && p * p <= num && is_prime(p) && p <= e;
        assert(p <= d);
    }
}

/// Every number at least 2 has a prime divisor.
proof fn lemma_has_prime_factor(r: int)
    requires
        r >= 2,
    ensures
        exists|p: int| is_prime(p) && #[trigger] (r % p) == 0 && 2 <= p <= r,
    decreases r,
{
    if is_prime(r) {
        vstd::arithmetic::div_mod::lemma_mod_self_0(r);
        assert(is_prime(r) && r % r == 0 && 2 <= r <= r);
    } else {
        let d = choose|d: int| 2 <= d < r && #[trigger] (r % d) == 0;
        lemma_has_prime_factor(d);
        let p = choose|p: int| is_prime(p) && #[trigger] (d % p) == 0 && 2 <= p <= d;
        vstd::arithmetic::div_mod::lemma_fundamental_div_mod(r, d);
        vstd::arithmetic::div_mod::lemma_fundamental_div_mod(d, p);
        let m = r / d;
        let k = d / p;
        assert(r == (k * m) * p) by (nonlinear_arith)
            requires
                r == d * m,
                d == p * k,
        ;
        assert(r % p == 0) by {
            vstd::arithmetic::div_mod::lemma_fundamental_div_mod_converse_mod(r, p, k * m, 0);
        }
    }
}

/// The sieve bound: the generator holds every prime below this cap.
pub const PRIME_CAP: usize = 100000;

/// Generates prime numbers, which can be used to factor a small number.
pub struct PrimeGen {
    /// The current position in the list of primes.
    pub prime_idx: usize,
    /// Every prime below the cap, in ascending order.
    pub primes: Vec<usize>,
}

impl PrimeGen {
    /// The generator's invariant: the list holds exactly the primes below
    /// the cap, in ascending order.
    pub open spec fn wf(&self) -> bool {
        &&& self.primes@.len() >= 1
        &&& self.primes@[0] == 2
        &&& forall|i: int| 0 <= i < self.primes@.len() ==> is_prime(#[trigger] self.primes@[i] as int)
        &&& forall|i: int| 0 <= i < self.primes@.len() ==> #[trigger] self.primes@[i] < PRIME_CAP
        &&& forall|i: int, j: int|
            0 <= i < j < self.primes@.len() ==> self.primes@[i] < self.primes@[j]
        &&& forall|q: int|
            2 <= q < PRIME_CAP && is_prime(q) ==> exists|i: int|
                0 <= i < self.primes@.len() && #[trigger] self.primes@[i] == q
    }

    /// A fresh generator, positioned before the first prime: sieves every
    /// prime below the cap by trial division.
    pub fn new() -> (r: PrimeGen)
        ensures
            r.wf(),
            r.prime_idx == 0,
    {
        let mut primes: Vec<usize> = Vec::new();
        primes.push(2);
        proof {
            assert(is_prime(2)) by {
                assert(forall|d: int| 2 <= d < 2 ==> #[trigger] (2int % d) != 0);
            }
        }
        let mut num: usize = 3;
        proof {
            assert forall|q: int| 2 <= q < 3 && is_prime(q) implies exists|i: int|
                0 <= i < primes@.len() && #[trigger] primes@[i] == q by {
                assert(q == 2);
                assert(primes@[0] == 2usize);
            }
        }
        while num < PRIME_CAP
            invariant
                3 <= num <= PRIME_CAP,
                primes@.len() >= 1,
                primes@[0] == 2,
                forall|i: int| 0 <= i < primes@.len() ==> is_prime(#[trigger] primes@[i] as int),
                forall|i: int| 0 <= i < primes@.len() ==> #[trigger] primes@[i] < num,
                forall|i: int, j: int| 0 <= i < j < primes@.len() ==> primes@[i] < primes@[j],
                forall|q: int|
                    2 <= q < num && is_prime(q) ==> exists|i: int|
                        0 <= i < primes@.len() && #[trigger] primes@[i] == q,
            decreases PRIME_CAP - num,
        {
            let mut divisible = false;
            let mut small_left = true;
            let mut pi: usize = 0;
            let np = primes.len();
            while pi < np && !divisible && small_left
                invariant
                    np == primes@.len(),
                    pi <= np,
                    num >= 2,
                    forall|i: int|
                        0 <= i < primes@.len() ==> is_prime(#[trigger] primes@[i] as int),
                    forall|i: int, j: int|
                        0 <= i < j < primes@.len() ==> primes@[i] < primes@[j],
                    divisible ==> !is_prime(num as int),
                    !divisible && small_left ==> forall|i: int|
                        0 <= i < pi && (#[trigger] primes@[i] as int) * (primes@[i] as int)
                            <= num as int ==> (num as int) % (primes@[i] as int) != 0,
                    !divisible && !small_left ==> forall|i: int|
                        0 <= i < np && (#[trigger] primes@[i] as int) * (primes@[i] as int)
                            <= num as int ==> (num as int) % (primes@[i] as int) != 0,
                decreases np - pi + (if divisible {
                    0int
                } else {
                    1int
                }) + (if small_left {
                    1int
                } else {
                    0int
                }),
            {
                let p = primes[pi];
                let sq_fits = match p.checked_mul(p) {
                    Some(sq) => sq <= num,
                    None => false,
                };
                if sq_fits {
                    if num % p == 0 {
                        proof {
                            let pv = primes@[pi as int] as int;
                            assert(pv < num) by (nonlinear_arith)
                                requires
                                    pv * pv <= num as int,
                                    pv >= 2,
                            ;
                            assert((num as int) % pv == 0);
                        }
                        divisible = true;
                    } else {
                        pi = pi + 1;
                    }
                } else {
                    proof {
                        let pv = primes@[pi as int] as int;
                        assert forall|i: int|
                            0 <= i < np && (#[trigger] primes@[i] as int) * (primes@[i] as int)
                                <= num as int implies (num as int) % (primes@[i] as int)
                            != 0 by {
                            if i >= pi {
                                let iv = primes@[i] as int;
                                assert(iv >= pv);
                                assert(iv * iv >= pv * pv) by (nonlinear_arith)
                                    requires
                                        iv >= pv >= 0,
                                ;
                            }
                        }
                    }
                    small_left = false;
                }
            }
            let ghost pre = primes@;
            if !divisible {
                proof {
                    lemma_trial_sieve_prime(primes@, num as int);
                }
                primes.push(num);
            }
            proof {
                assert forall|q: int|
                    2 <= q < num + 1 && is_prime(q) implies exists|i: int|
                    0 <= i < primes@.len() && #[trigger] primes@[i] == q by {
                    if q < num {
                        let i = choose|i: int| 0 <= i < pre.len() && #[trigger] pre[i] == q;
                        assert(primes@[i] == q);
                    } else {
                        assert(q == num);
                        assert(!divisible);
                        assert(primes@[pre.len() as int] == num as usize);
                    }
                }
            }
            num = num + 1;
        }
        PrimeGen { prime_idx: 0, primes }
    }

    /// Sends the generator back to 2.
    pub fn reset(&mut self)
        requires
            old(self).wf(),
        ensures
            final(self).wf(),
            final(self).prime_idx == 0,
            final(self).primes == old(self).primes,
    {
        self.prime_idx = 0;
    }

    /// Yields the next prime of the sieved list.
    pub fn next_prime(&mut self) -> (r: usize)
        requires
            old(self).wf(),
            old(self).prime_idx < old(self).primes@.len(),
        ensures
            final(self).wf(),
            final(self).primes == old(self).primes,
            final(self).prime_idx == old(self).prime_idx + 1,
            r == final(self).primes@[old(self).prime_idx as int],
            is_prime(r as int),
            r >= 2,
    {
        // reading the length first pins the index increment inside bounds
        let n = self.primes.len();
        let r = self.primes[self.prime_idx];
        self.prime_idx = self.prime_idx + 1;
        proof {
            assert(self.primes@[0] == 2);
        }
        r
    }

    /// Finds the prime factorization of a number below the sieve cap by
    /// dividing out each prime in turn; 0 and 1 factor as themselves.
    pub fn factor(&mut self, num: usize) -> (r: Vec<usize>)
        requires
            old(self).wf(),
            num < PRIME_CAP,
        ensures
            final(self).wf(),
            final(self).prime_idx == old(self).prime_idx,
            final(self).primes == old(self).primes,
            num <= 1 ==> r@ =~= seq![num],
            num >= 2 ==> product(r@) == num && (forall|i: int|
                0 <= i < r@.len() ==> is_prime(#[trigger] r@[i] as int)),
            forall|i: int, j: int| 0 <= i < j < r@.len() ==> r@[i] <= r@[j],
    {
        if num == 0 || num == 1 {
            let mut v: Vec<usize> = Vec::new();
            v.push(num);
            return v;
        }
        let stored_idx = self.prime_idx;
        let mut factors: Vec<usize> = Vec::new();
        self.reset();
        let mut remaining = num;
        while remaining != 1
            invariant
                self.wf(),
                1 <= remaining <= num < PRIME_CAP,
                2 <= num,
                product(factors@) * remaining == num,
                self.primes == old(self).primes,
                forall|i: int| 0 <= i < factors@.len() ==> is_prime(#[trigger] factors@[i] as int),
                forall|i: int, j: int| 0 <= i < j < factors@.len() ==> factors@[i] <= factors@[j],
                forall|k: int|
                    0 <= k < factors@.len() ==> self.prime_idx >= 1 && #[trigger] factors@[k]
                        <= self.primes@[self.prime_idx - 1],
                self.prime_idx <= self.primes@.len(),
                remaining > 1 ==> (forall|i: int|
                    0 <= i < self.prime_idx ==> (remaining as int) % (
                    #[trigger] self.primes@[i] as int) != 0),
            decreases remaining, self.primes@.len() - self.prime_idx,
        {
            proof {
                lemma_has_prime_factor(remaining as int);
                let p = choose|p: int|
                    is_prime(p) && #[trigger] ((remaining as int) % p) == 0 && 2 <= p
                        <= remaining;
                let ip = choose|i: int|
                    0 <= i < self.primes@.len() && #[trigger] self.primes@[i] == p;
                assert(ip >= self.prime_idx);
                assert(self.prime_idx < self.primes@.len());
            }
            let prime = self.next_prime();
            let mut r2 = remaining;
            proof {
                assert(r2 * 1 == remaining) by (nonlinear_arith)
                    requires
                        r2 == remaining,
                ;
            }
            while r2 % prime == 0 && r2 > 1
                invariant
                    is_prime(prime as int),
                    2 <= prime,
                    1 <= r2 <= remaining,
                    product(factors@) * r2 == num,
                    2 <= num,
                    self.prime_idx >= 1,
                    prime == self.primes@[self.prime_idx - 1],
                    exists|k: int| #[trigger] ((r2 as int) * k) == remaining as int && k >= 1,
                    forall|i: int|
                        0 <= i < factors@.len() ==> is_prime(#[trigger] factors@[i] as int),
                    forall|i: int, j: int|
                        0 <= i < j < factors@.len() ==> factors@[i] <= factors@[j],
                    forall|k: int| 0 <= k < factors@.len() ==> #[trigger] factors@[k] <= prime,
                decreases r2,
            {
                proof {
                    vstd::arithmetic::div_mod::lemma_fundamental_div_mod(r2 as int, prime as int);
                    let q = (r2 as int) / (prime as int);
                    assert(1 <= q < r2) by (nonlinear_arith)
                        requires
                            q * (prime as int) + (r2 as int) % (prime as int) == r2 as int,
                            (r2 as int) % (prime as int) == 0,
                            prime >= 2,
                            r2 >= 2,
                            q >= 0,
                    ;
                    assert(factors@.push(prime).drop_last() =~= factors@);
                    assert(product(factors@.push(prime)) == product(factors@) * prime);
                    assert(product(factors@.push(prime)) * q == num) by (nonlinear_arith)
                        requires
                            product(factors@.push(prime)) == product(factors@) * (prime as int),
                            product(factors@) * (r2 as int) == num as int,
                            (q as int) * (prime as int) == r2 as int,
                    ;
                    let k0 = choose|k: int| #[trigger] ((r2 as int) * k) == remaining as int && k >= 1;
                    assert(q * ((prime as int) * k0) == remaining) by (nonlinear_arith)
                        requires
                            (r2 as int) * k0 == remaining as int,
                            q * (prime as int) == r2 as int,
                    ;
                    assert((prime as int) * k0 >= 1) by (nonlinear_arith)
                        requires
                            prime >= 2,
                            k0 >= 1,
                    ;
                }
                factors.push(prime);
                r2 = r2 / prime;
            }
            proof {
                if r2 > 1 {
                    assert((r2 as int) % (prime as int) != 0);
                    assert forall|i: int| 0 <= i < self.prime_idx implies (r2 as int) % (
                    #[trigger] self.primes@[i] as int) != 0 by {
                        if i < self.prime_idx - 1 {
                            lemma_divides_through(
                                remaining as int,
                                r2 as int,
                                self.primes@[i] as int,
                            );
                        }
                    }
                }
            }
            remaining = r2;
        }
        proof {
            assert(product(factors@) * 1 == product(factors@));
        }
        self.prime_idx = stored_idx;
        factors
    }
}

/// If a value divides the quotient chain of `a` down to `b`, a divisor of
/// `b` divides `a` as well; contrapositively, what did not divide `a`
/// cannot divide `b` when `b` divides `a`.
proof fn lemma_divides_through(a: int, b: int, d: int)
    requires
        a >= 1,
        b >= 1,
        d >= 2,
        exists|k: int| #[trigger] (b * k) == a && k >= 1,
        a % d != 0,
    ensures
        b % d != 0,
{
    if b % d == 0 {
        let k = choose|k: int| #[trigger] (b * k) == a && k >= 1;
        vstd::arithmetic::div_mod::lemma_fundamental_div_mod(b, d);
        let q = b / d;
        assert(a == d * (q * k)) by (nonlinear_arith)
            requires
                b * k == a,
                b == d * q + b % d,
                b % d == 0,
        ;
        assert(a % d == 0) by {
            vstd::arithmetic::div_mod::lemma_fundamental_div_mod_converse_mod(a, d, q * k, 0);
        }
        assert(false);
    }
}

impl Default for PrimeGen {
    /// A fresh generator, as [`PrimeGen::new`] builds it.
    fn default() -> (r: PrimeGen)
        ensures
            r.wf(),
            r.prime_idx == 0,
    {
        PrimeGen::new()
    }
}

/// A candidate that no known prime with a fitting square divides, where
/// the known primes include every prime below the candidate, is itself
/// prime.
proof fn lemma_trial_sieve_prime(primes: Seq<usize>, num: int)
    requires
        primes.len() >= 1,
        primes[0] == 2,
        num >= 3,
        forall|i: int| 0 <= i < primes.len() ==> is_prime(#[trigger] primes[i] as int),
        forall|i: int, j: int| 0 <= i < j < primes.len() ==> primes[i] < primes[j],
        forall|q: int|
            2 <= q < num && is_prime(q) ==> exists|i: int|
                0 <= i < primes.len() && #[trigger] primes[i] == q,
        forall|i: int|
            0 <= i < primes.len() && (#[trigger] primes[i] as int) * (primes[i] as int) <= num
                ==> num % (primes[i] as int) != 0,
    ensures
        is_prime(num),
{
    assert forall|d: int| 2 <= d && d * d <= num implies #[trigger] (num % d) != 0 by {
        if num % d == 0 {
            lemma_min_divisor_prime(num, d);
            let p = choose|p: int|
                2 <= p && #[trigger] (num % p) == 0 && p * p <= num && is_prime(p) && p <= d;
            assert(p < num) by (nonlinear_arith)
                requires
                    p * p <= num,
                    p >= 2,
            ;
            let i = choose|i: int| 0 <= i < primes.len() && #[trigger] primes[i] == p;
            assert(num % (primes[i] as int) != 0);
            assert(false);
        }
    }
    lemma_no_small_divisor_prime(num);
}

} // verus!
