//! Primes, divisibility and the integer square root.

use vstd::prelude::*;

verus! {

/// `n` is a prime number.
pub open spec fn is_prime(n: int) -> bool {
    n >= 2 && forall|d: int| 2 <= d < n ==> #[trigger] (n % d) != 0
}

/// The number of primes `p` with `p <= n`.
pub open spec fn prime_count(n: int) -> nat
    decreases n,
{
    if n < 2 {
        0
    } else if is_prime(n) {
        prime_count(n - 1) + 1
    } else {
        prime_count(n - 1)
    }
}

/// The number that the flag at `index` stands for: 2 at index 0, and the
/// odd number `2 * index + 1` at every other index.
pub open spec fn number_at(index: int) -> int {
    if index == 0 {
        2
    } else {
        2 * index + 1
    }
}

/// The index of the flag that stands for `number`, if one does: 2 and the
/// odd numbers from 3 on have a flag.
pub open spec fn index_of(number: int) -> Option<int> {
    if number == 2 {
        Some(0)
    } else if number >= 3 && number % 2 == 1 {
        Some(number / 2)
    } else {
        None
    }
}

/// The number of flags that the numbers up to and including `size` take:
/// one for 2 and one for each odd number from 3 on.
pub open spec fn flag_count(size: int) -> int {
    if size < 2 {
        0
    } else {
        (size + 1) / 2
    }
}

/// The odd number `2 * index + 1` is a multiple of `q`.
pub open spec fn multiple_at(index: int, q: int) -> bool {
    (2 * index + 1) % q == 0
}

/// `v` is a multiple of `q` that is at least the square of `q`: what one
/// pass with `q` strikes out.
pub open spec fn struck(v: int, q: int) -> bool {
    q * q <= v && v % q == 0
}

/// `v` has a divisor `d` with `3 <= d < p` whose square is at most `v`:
/// what the passes with all numbers below `p` have struck out.
pub open spec fn sieved(v: int, p: int) -> bool {
    exists|d: int| 3 <= d < p && #[trigger] struck(v, d)
}

/// A multiple of `q` is `q` times its quotient.
pub proof fn lemma_multiple_form(x: int, q: int)
    requires
        q > 0,
        x % q == 0,
    ensures
        x == q * (x / q),
{
    vstd::arithmetic::div_mod::lemma_fundamental_div_mod(x, q);
}

/// `q * t` is a multiple of `q`.
pub proof fn lemma_is_multiple(q: int, t: int)
    requires
        q > 0,
    ensures
        (q * t) % q == 0,
{
    vstd::arithmetic::div_mod::lemma_mod_multiples_basic(t, q);
    assert(t * q == q * t) by (nonlinear_arith);
}

/// Divisibility is transitive.
pub proof fn lemma_divides_transitive(a: int, b: int, c: int)
    requires
        a > 0,
        b > 0,
        b % a == 0,
        c % b == 0,
    ensures
        c % a == 0,
{
    lemma_multiple_form(b, a);
    lemma_multiple_form(c, b);
    let s = b / a;
    let t = c / b;
    assert(c == a * (s * t)) by (nonlinear_arith)
        requires
            c == b * t,
            b == a * s,
    ;
    lemma_is_multiple(a, s * t);
}

/// Between the indices of two neighbouring odd multiples of an odd `q`
/// no index stands for a multiple of `q`.
pub proof fn lemma_no_multiple_between(a: int, i: int, q: int)
    requires
        q > 0,
        q % 2 == 1,
        (2 * a + 1) % q == 0,
        a < i < a + q,
    ensures
        (2 * i + 1) % q != 0,
{
    if (2 * i + 1) % q == 0 {
        lemma_multiple_form(2 * a + 1, q);
        lemma_multiple_form(2 * i + 1, q);
        let s = (2 * a + 1) / q;
        let t = (2 * i + 1) / q;
        assert(2 * (i - a) == q * (t - s)) by (nonlinear_arith)
            requires
                2 * a + 1 == q * s,
                2 * i + 1 == q * t,
        ;
        assert(t - s == 1) by (nonlinear_arith)
            requires
                q > 0,
                0 < q * (t - s) < 2 * q,
        ;
        assert(q * 1 == q) by (nonlinear_arith);
        assert(false);
    }
}

/// The index `half + q * t` stands for the odd multiple `q * (2 * t + 1)`
/// of `q = 2 * half + 1`.
pub proof fn lemma_index_of_multiple(half: int, t: int)
    requires
        half >= 1,
    ensures
        (2 * (half + (2 * half + 1) * t) + 1) % (2 * half + 1) == 0,
        2 * (half + (2 * half + 1) * t) + 1 == (2 * half + 1) * (2 * t + 1),
{
    let q = 2 * half + 1;
    assert(2 * (half + q * t) + 1 == q * (2 * t + 1)) by (nonlinear_arith)
        requires
            q == 2 * half + 1,
    ;
    lemma_is_multiple(q, 2 * t + 1);
}

/// A number that a flag stands for: 2 or an odd number from 3 on.
pub open spec fn is_candidate(v: int) -> bool {
    v == 2 || (v >= 3 && v % 2 == 1)
}

/// An even number divides no odd number.
pub proof fn lemma_even_divides_no_odd(v: int, d: int)
    requires
        d > 0,
        d % 2 == 0,
        v % 2 == 1,
    ensures
        v % d != 0,
{
    if v % d == 0 {
        lemma_multiple_form(v, d);
        lemma_multiple_form(d, 2);
        let k = v / d;
        let m = d / 2;
        assert(v == 2 * (m * k)) by (nonlinear_arith)
            requires
                v == d * k,
                d == 2 * m,
        ;
    }
}

/// A pass with `p` adds to what is struck out exactly the multiples of
/// `p` from its square on; the even number after `p` adds nothing.
pub proof fn lemma_sieved_step(v: int, p: int)
    requires
        is_candidate(v),
        p >= 3,
        p % 2 == 1,
    ensures
        sieved(v, p + 2) == (sieved(v, p) || struck(v, p)),
{
    if sieved(v, p + 2) {
        let d = choose|d: int| 3 <= d < p + 2 && #[trigger] struck(v, d);
        if d == p + 1 {
            if v == 2 {
                assert(d * d > 2) by (nonlinear_arith)
                    requires
                        d >= 3,
                ;
            } else {
                lemma_even_divides_no_odd(v, d);
            }
        }
    }
    if sieved(v, p) {
        let d = choose|d: int| 3 <= d < p && #[trigger] struck(v, d);
        assert(3 <= d < p + 2 && struck(v, d));
    }
    if struck(v, p) {
        assert(3 <= p < p + 2 && struck(v, p));
    }
}

/// Where `p` itself has been struck out by a smaller number, a pass with
/// `p` would strike out nothing new.
pub proof fn lemma_sieved_skip(v: int, p: int)
    requires
        p >= 3,
        sieved(p, p),
        struck(v, p),
    ensures
        sieved(v, p),
{
    let d = choose|d: int| 3 <= d < p && #[trigger] struck(p, d);
    lemma_divides_transitive(d, p, v);
    assert(d * d <= v) by (nonlinear_arith)
        requires
            d * d <= p,
            p * p <= v,
            p >= 3,
    ;
    assert(3 <= d < p && struck(v, d));
}

/// Once the square of `p` is beyond `v`, the passes below `p` have struck
/// out `v` exactly if `v` is not prime.
pub proof fn lemma_sieved_is_composite(v: int, p: int)
    requires
        is_candidate(v),
        p >= 3,
        v < p * p,
    ensures
        sieved(v, p) == !is_prime(v),
{
    if sieved(v, p) {
        let d = choose|d: int| 3 <= d < p && #[trigger] struck(v, d);
        assert(d < v) by (nonlinear_arith)
            requires
                d >= 3,
                d * d <= v,
        ;
        assert(v % d == 0);
    }
    if !is_prime(v) {
        let e = choose|e: int| 2 <= e < v && #[trigger] (v % e) == 0;
        lemma_multiple_form(v, e);
        let f = v / e;
        assert(f >= 2 && f < v) by (nonlinear_arith)
            requires
                v == e * f,
                2 <= e < v,
        ;
        assert(e * f == f * e) by (nonlinear_arith);
        lemma_is_multiple(f, e);
        let d = if e <= f {
            e
        } else {
            f
        };
        assert(d * d <= v) by (nonlinear_arith)
            requires
                v == e * f,
                d == e || d == f,
                d <= e,
                d <= f,
                d >= 2,
        ;
        assert(v % d == 0);
        if d % 2 == 0 {
            lemma_even_divides_no_odd(v, d);
        }
        assert(d < p) by (nonlinear_arith)
            requires
                d * d <= v,
                v < p * p,
                d >= 0,
                p >= 0,
        ;
        assert(3 <= d < p && struck(v, d));
    }
}

/// The number of indices from `lo` up to, but not including, `hi` whose
/// number is prime.
pub open spec fn primes_at(lo: int, hi: int) -> nat
    decreases hi - lo,
{
    if hi <= lo {
        0
    } else if is_prime(number_at(hi - 1)) {
        primes_at(lo, hi - 1) + 1
    } else {
        primes_at(lo, hi - 1)
    }
}

/// A run of indices holds no more primes than indices.
pub proof fn lemma_primes_at_bound(lo: int, hi: int)
    requires
        lo <= hi,
    ensures
        primes_at(lo, hi) <= hi - lo,
    decreases hi - lo,
{
    if lo < hi {
        lemma_primes_at_bound(lo, hi - 1);
    }
}

/// The primes of two neighbouring runs of indices add up.
pub proof fn lemma_primes_at_split(lo: int, mid: int, hi: int)
    requires
        lo <= mid <= hi,
    ensures
        primes_at(lo, hi) == primes_at(lo, mid) + primes_at(mid, hi),
    decreases hi - mid,
{
    if mid < hi {
        lemma_primes_at_split(lo, mid, hi - 1);
    }
}

/// The flags for the numbers up to `size` stand for exactly the primes up
/// to `size`: 2 is there once `size` reaches it, and no even number from
/// 4 on is prime.
pub proof fn lemma_primes_at_all(size: int)
    ensures
        primes_at(0, flag_count(size)) == prime_count(size),
    decreases size,
{
    if size < 2 {
    } else if size == 2 {
        assert(is_prime(2));
        assert(primes_at(0, 0) == 0);
        assert(prime_count(1) == 0);
        assert(flag_count(2) == 1);
        assert(primes_at(0, 1) == 1);
    } else {
        lemma_primes_at_all(size - 1);
        if size % 2 == 0 {
            assert(size % 2 == 0 && 2 <= 2 < size);
            assert(!is_prime(size));
            assert(flag_count(size) == flag_count(size - 1));
        } else {
            assert(flag_count(size) == flag_count(size - 1) + 1);
            assert(number_at(flag_count(size) - 1) == size);
        }
    }
}

/// Every number from 2 on has a prime divisor.
pub proof fn lemma_prime_divisor(n: int) -> (q: int)
    requires
        n >= 2,
    ensures
        is_prime(q),
        2 <= q <= n,
        n % q == 0,
    decreases n,
{
    if is_prime(n) {
        vstd::arithmetic::div_mod::lemma_mod_self_0(n);
        n
    } else {
        let e = choose|e: int| 2 <= e < n && #[trigger] (n % e) == 0;
        let q = lemma_prime_divisor(e);
        lemma_divides_transitive(q, e, n);
        q
    }
}

/// `primes` lists, in rising order, exactly the odd primes up to `top`.
pub open spec fn lists_odd_primes(primes: Seq<usize>, top: int) -> bool {
    &&& forall|k: int|
        0 <= k < primes.len() ==> 3 <= #[trigger] primes[k] <= top && primes[k] % 2 == 1
            && is_prime(primes[k] as int)
    &&& forall|k: int, l: int| 0 <= k < l < primes.len() ==> primes[k] < primes[l]
    &&& forall|q: int|
        3 <= q <= top && #[trigger] is_prime(q) ==> exists|k: int|
            0 <= k < primes.len() && #[trigger] primes[k] == q
}

/// A list of the odd primes up to `top` is also the list of those up to
/// `top + 1` where `top + 1` is even or below 3, since then `top + 1` is
/// not an odd prime.
pub proof fn lemma_lists_one_more(primes: Seq<usize>, top: int)
    requires
        lists_odd_primes(primes, top),
        (top + 1) % 2 == 0 || top + 1 < 3,
    ensures
        lists_odd_primes(primes, top + 1),
{
    if top + 1 >= 3 {
        assert((top + 1) % 2 == 0 && 2 <= 2 < top + 1);
        assert(!is_prime(top + 1));
    }
}

/// One of the numbers in `primes` strikes out `v`.
pub open spec fn struck_by_any(v: int, primes: Seq<usize>) -> bool {
    exists|k: int| 0 <= k < primes.len() && struck(v, #[trigger] primes[k] as int)
}

/// Passes with all odd primes up to `top` strike out exactly the numbers
/// below the square of `top + 1` that are not prime.
pub proof fn lemma_struck_is_composite(v: int, primes: Seq<usize>, top: int)
    requires
        is_candidate(v),
        lists_odd_primes(primes, top),
        top >= 0,
        v < (top + 1) * (top + 1),
    ensures
        struck_by_any(v, primes) == !is_prime(v),
{
    if struck_by_any(v, primes) {
        let k = choose|k: int| 0 <= k < primes.len() && struck(v, #[trigger] primes[k] as int);
        let q = primes[k] as int;
        assert(q < v) by (nonlinear_arith)
            requires
                q >= 3,
                q * q <= v,
        ;
        assert(v % q == 0);
    }
    if !is_prime(v) {
        assert(v < (top + 3) * (top + 3)) by (nonlinear_arith)
            requires
                v < (top + 1) * (top + 1),
                top >= 0,
        ;
        lemma_sieved_is_composite(v, top + 3);
        let d = choose|d: int| 3 <= d < top + 3 && #[trigger] struck(v, d);
        let q = lemma_prime_divisor(d);
        lemma_divides_transitive(q, d, v);
        if q == 2 {
            lemma_even_divides_no_odd(v, q);
        }
        assert(q * q <= v) by (nonlinear_arith)
            requires
                2 <= q <= d,
                d * d <= v,
        ;
        assert(q <= top) by (nonlinear_arith)
            requires
                q * q <= v,
                v < (top + 1) * (top + 1),
                q >= 0,
                top >= 0,
        ;
        let k = choose|k: int| 0 <= k < primes.len() && #[trigger] primes[k] == q;
        assert(struck(v, primes[k] as int));
    }
}

/// `r` is the integer square root of `n`: the largest number whose square
/// is at most `n`.
pub open spec fn is_root(r: int, n: int) -> bool {
    r >= 0 && r * r <= n < (r + 1) * (r + 1)
}

/// The integer square root of `n`, for `n >= 0`.
pub open spec fn int_sqrt(n: int) -> int {
    choose|r: int| is_root(r, n)
}

/// Every number from 0 on has an integer square root.
pub proof fn lemma_int_sqrt(n: int)
    requires
        n >= 0,
    ensures
        is_root(int_sqrt(n), n),
    decreases n,
{
    if n == 0 {
        assert(is_root(0, 0));
    } else {
        lemma_int_sqrt(n - 1);
        let r = int_sqrt(n - 1);
        if (r + 1) * (r + 1) <= n {
            assert(n < (r + 2) * (r + 2)) by (nonlinear_arith)
                requires
                    n - 1 < (r + 1) * (r + 1),
                    r >= 0,
            ;
            assert(is_root(r + 1, n));
        } else {
            assert(is_root(r, n));
        }
    }
}

/// A number has one integer square root only.
pub proof fn lemma_root_unique(r: int, n: int)
    requires
        is_root(r, n),
    ensures
        int_sqrt(n) == r,
{
    let s = int_sqrt(n);
    assert(is_root(s, n));
    assert(s == r) by (nonlinear_arith)
        requires
            r >= 0,
            s >= 0,
            r * r <= n < (r + 1) * (r + 1),
            s * s <= n < (s + 1) * (s + 1),
    ;
}

/// For a positive `m`, `m * m <= n` can be tested by a division.
proof fn lemma_square_by_division(m: int, n: int)
    requires
        m > 0,
        n >= 0,
    ensures
        m * m <= n <==> m <= n / m,
{
    vstd::arithmetic::div_mod::lemma_fundamental_div_mod(n, m);
    let q = n / m;
    let r = n % m;
    assert(0 <= r < m) by {
        vstd::arithmetic::div_mod::lemma_mod_bound(n, m);
    }
    if m <= q {
        assert(m * m <= m * q) by (nonlinear_arith)
            requires
                m > 0,
                m <= q,
        ;
    } else {
        assert(m * (q + 1) <= m * m) by (nonlinear_arith)
            requires
                m > 0,
                q + 1 <= m,
        ;
        assert(m * (q + 1) == m * q + m) by (nonlinear_arith);
    }
}

/// The integer square root of `n`, found by halving the interval that
/// holds it.
pub fn isqrt(n: usize) -> (r: usize)
    ensures
        is_root(r as int, n as int),
        r == int_sqrt(n as int),
{
    if n < 2 {
        proof {
            assert(n * n <= n && n < (n + 1) * (n + 1)) by (nonlinear_arith)
                requires
                    0 <= n < 2,
            ;
            lemma_root_unique(n as int, n as int);
        }
        return n;
    }
    let mut lo: usize = 1;
    let mut hi: usize = n;
    assert(n < hi * hi) by (nonlinear_arith)
        requires
            hi == n,
            n >= 2,
    ;
    while hi - lo > 1
        invariant
            1 <= lo < hi <= n,
            lo * lo <= n,
            n < hi * hi,
        decreases hi - lo,
    {
        let mid: usize = lo + (hi - lo) / 2;
        proof {
            lemma_square_by_division(mid as int, n as int);
        }
        if mid <= n / mid {
            lo = mid;
        } else {
            hi = mid;
        }
    }
    proof {
        lemma_root_unique(lo as int, n as int);
    }
    lo
}

} // verus!
