//! The field modulus is prime. The proof is Lucas's test: an element whose
//! powers reach 1 at `n − 1` and at no `(n − 1)/q` for the prime factors `q`
//! of `n − 1` generates every non-zero residue, so every non-zero residue is
//! invertible and `n` has no proper divisor.
use crate::mpc_shamir::field::{ext_gcd, gcd, lemma_ext_gcd_props};
use vstd::arithmetic::div_mod::*;
use vstd::arithmetic::mul::*;
use vstd::arithmetic::power::*;
use vstd::prelude::*;
use vstd::relations::injective_on;
use vstd::set_lib::*;

verus! {

/// `n` is a prime number.
pub open spec fn is_prime(n: int) -> bool {
    n > 1 && forall|d: int| 1 < d < n ==> #[trigger] (n % d) != 0
}

/// The product of a sequence of integers.
pub open spec fn prod(s: Seq<int>) -> int
    decreases s.len(),
{
    if s.len() == 0 {
        1
    } else {
        s[0] * prod(s.drop_first())
    }
}

// ── Divisibility ──────────────────────────────────────────────────────────────
/// A common divisor of `a` and `b` divides `a·x + b·y`.
proof fn lemma_divides_lin(g: int, a: int, b: int, x: int, y: int)
    requires
        g > 0,
        a % g == 0,
        b % g == 0,
    ensures
        (a * x + b * y) % g == 0,
{
    lemma_fundamental_div_mod(a, g);
    lemma_fundamental_div_mod(b, g);
    let u = a / g;
    let v = b / g;
    assert(a * x + b * y == (u * x + v * y) * g) by (nonlinear_arith)
        requires
            a == g * u,
            b == g * v,
    ;
    lemma_mod_multiples_basic(u * x + v * y, g);
}

/// `gcd(a, b)` divides both `a` and `b`.
pub proof fn lemma_gcd_divides(a: nat, b: nat)
    requires
        a > 0 || b > 0,
    ensures
        gcd(a, b) > 0,
        (a as int) % (gcd(a, b) as int) == 0,
        (b as int) % (gcd(a, b) as int) == 0,
    decreases a,
{
    if a == 0 {
        lemma_mod_self_0(b as int);
        lemma_small_mod(0, b);
    } else {
        let r = b % a;
        lemma_gcd_divides(r, a);
        let g = gcd(a, b) as int;
        lemma_fundamental_div_mod(b as int, a as int);
        lemma_divides_lin(g, a as int, r as int, (b / a) as int, 1);
        assert(a * (b / a) + r * 1 == b);
    }
}

/// A positive multiple of `d` is at least `d`.
pub proof fn lemma_divisor_le(d: int, n: int)
    requires
        d > 0,
        n > 0,
        n % d == 0,
    ensures
        d <= n,
{
    if d > n {
        lemma_small_mod(n as nat, d as nat);
    }
}

/// Two different primes are coprime.
proof fn lemma_primes_coprime(r: int, q: int)
    requires
        is_prime(r),
        is_prime(q),
        r != q,
    ensures
        gcd(r as nat, q as nat) == 1,
{
    lemma_gcd_divides(r as nat, q as nat);
    let g = gcd(r as nat, q as nat) as int;
    lemma_divisor_le(g, r);
    lemma_divisor_le(g, q);
    if g != 1 {
        assert(r % g == 0);
        assert(q % g == 0);
        if g < r {
            assert(1 < g < r);
        } else if g < q {
            assert(1 < g < q);
        }
    }
}

/// Euclid's lemma for two different primes: `r | q·m ⇒ r | m`.
proof fn lemma_euclid(r: int, q: int, m: int)
    requires
        is_prime(r),
        is_prime(q),
        r != q,
        (q * m) % r == 0,
    ensures
        m % r == 0,
{
    lemma_primes_coprime(r, q);
    lemma_ext_gcd_props(r as nat, q as nat);
    let x = ext_gcd(r as nat, q as nat).1;
    let y = ext_gcd(r as nat, q as nat).2;
    assert(r * x + q * y == 1);
    lemma_mod_self_0(r);
    lemma_divides_lin(r, r, q * m, m * x, y);
    assert(r * (m * x) + (q * m) * y == m * (r * x + q * y)) by (nonlinear_arith);
}

/// A prime dividing a product of primes is one of them.
proof fn lemma_prime_in_factors(r: int, qs: Seq<int>)
    requires
        is_prime(r),
        forall|i: int| 0 <= i < qs.len() ==> is_prime(#[trigger] qs[i]),
        prod(qs) % r == 0,
    ensures
        exists|i: int| 0 <= i < qs.len() && qs[i] == r,
    decreases qs.len(),
{
    if qs.len() == 0 {
        lemma_small_mod(1, r as nat);
    } else if qs[0] != r {
        let rest = qs.drop_first();
        assert(is_prime(qs[0]));
        lemma_euclid(r, qs[0], prod(rest));
        assert forall|i: int| 0 <= i < rest.len() implies is_prime(#[trigger] rest[i]) by {
            assert(rest[i] == qs[i + 1]);
        }
        lemma_prime_in_factors(r, rest);
        let i = choose|i: int| 0 <= i < rest.len() && rest[i] == r;
        assert(qs[i + 1] == r);
    } else {
        assert(qs[0] == r);
    }
}

/// The least divisor above 1 of `k`, found below the divisor `e`, is prime.
proof fn lemma_least_divisor(k: int, e: int) -> (r: int)
    requires
        1 < e <= k,
        k % e == 0,
    ensures
        1 < r <= e,
        k % r == 0,
        is_prime(r),
    decreases e,
{
    if exists|d: int| 1 < d < e && #[trigger] (k % d) == 0 {
        let d = choose|d: int| 1 < d < e && #[trigger] (k % d) == 0;
        lemma_least_divisor(k, d)
    } else {
        assert forall|d: int| 1 < d < e implies #[trigger] (e % d) != 0 by {
            if e % d == 0 {
                lemma_fundamental_div_mod(k, e);
                lemma_fundamental_div_mod(e, d);
                lemma_divides_lin(d, e, 0, k / e, 0);
                assert(e * (k / e) + 0 * 0 == k);
                assert(k % d == 0);
            }
        }
        e
    }
}

// ── Powers modulo n ───────────────────────────────────────────────────────────
/// `g^m ≡ 1` gives `g^(m·q) ≡ 1`.
proof fn lemma_pow_one_mod(g: int, m: nat, q: nat, n: int)
    requires
        n > 1,
        pow(g, m) % n == 1,
    ensures
        pow(g, m * q) % n == 1,
{
    lemma_pow_multiplies(g, m, q);
    lemma_pow_mod_noop(pow(g, m), q, n);
    lemma1_pow(q);
    lemma_small_mod(1, n as nat);
}

/// The product of two powers is the power of the sum, modulo n.
proof fn lemma_pow_mul_mod(g: int, i: nat, j: nat, n: int)
    requires
        n > 0,
    ensures
        ((pow(g, i) % n) * pow(g, j)) % n == pow(g, i + j) % n,
{
    lemma_pow_adds(g, i, j);
    lemma_mul_mod_noop_left(pow(g, i), pow(g, j), n);
}

/// A least positive exponent `m` with `g^m ≡ 1` exists below any such exponent.
proof fn lemma_least_order(g: int, n: int, e: nat) -> (m: nat)
    requires
        n > 1,
        e >= 1,
        pow(g, e) % n == 1,
    ensures
        1 <= m <= e,
        pow(g, m) % n == 1,
        forall|j: nat| 0 < j < m ==> #[trigger] pow(g, j) % n != 1,
    decreases e,
{
    if exists|j: nat| 0 < j < e && #[trigger] pow(g, j) % n == 1 {
        let j = choose|j: nat| 0 < j < e && #[trigger] pow(g, j) % n == 1;
        lemma_least_order(g, n, j)
    } else {
        e
    }
}

/// The order of `g` divides every exponent `e` with `g^e ≡ 1`.
proof fn lemma_order_divides(g: int, n: int, m: nat, e: nat)
    requires
        n > 1,
        m >= 1,
        pow(g, m) % n == 1,
        forall|j: nat| 0 < j < m ==> #[trigger] pow(g, j) % n != 1,
        pow(g, e) % n == 1,
    ensures
        (e as int) % (m as int) == 0,
{
    let q = e / m;
    let r = e % m;
    lemma_fundamental_div_mod(e as int, m as int);
    lemma_pow_one_mod(g, m, q, n);
    assert(e == m * q + r);
    lemma_pow_mul_mod(g, m * q, r, n);
    lemma_small_mod(1, n as nat);
    if r > 0 {
        assert(pow(g, r) % n != 1);
        lemma_mod_twice(pow(g, r), n);
        assert(((pow(g, m * q) % n) * pow(g, r)) % n == pow(g, r) % n);
    }
}

/// `a` is a power of `g` with exponent below `n − 1`, modulo n.
pub open spec fn generated(g: int, n: int, a: int) -> bool {
    exists|i: nat| i < n - 1 && #[trigger] (pow(g, i) % n) == a
}

/// An element of order `n − 1` takes every non-zero residue as a power.
proof fn lemma_generator_covers(g: int, n: int)
    requires
        n > 2,
        pow(g, (n - 1) as nat) % n == 1,
        forall|j: nat| 0 < j < n - 1 ==> #[trigger] pow(g, j) % n != 1,
    ensures
        forall|a: int| 0 < a < n ==> #[trigger] generated(g, n, a),
{
    let big_n = (n - 1) as nat;
    let f = |i: int| pow(g, i as nat) % n;
    let xs = set_int_range(0, big_n as int);
    let ys = xs.map(f);
    let rng = set_int_range(1, n);
    assert forall|i: int, j: int| xs.contains(i) && xs.contains(j) && #[trigger] f(i) == #[trigger] f(
        j,
    ) implies i == j by {
        if i != j {
            let (lo, hi) = if i < j {
                (i as nat, j as nat)
            } else {
                (j as nat, i as nat)
            };
            let c = pow(g, (big_n - lo) as nat);
            // c·g^lo ≡ 1 and c·g^hi ≡ g^(hi − lo)
            lemma_pow_mul_mod(g, (big_n - lo) as nat, lo, n);
            lemma_mul_mod_noop_left(c, pow(g, lo), n);
            lemma_mul_mod_noop_right(c, pow(g, lo), n);
            lemma_mul_mod_noop_right(c, pow(g, hi), n);
            lemma_mul_mod_noop_left(c, pow(g, hi), n);
            assert(pow(g, lo) % n == pow(g, hi) % n);
            assert((c * pow(g, lo)) % n == 1);
            assert((c * pow(g, hi)) % n == 1);
            lemma_pow_mul_mod(g, (big_n - lo) as nat, hi, n);
            assert((big_n - lo) + hi == big_n + (hi - lo));
            lemma_pow_mul_mod(g, big_n, (hi - lo) as nat, n);
            lemma_mod_twice(pow(g, (hi - lo) as nat), n);
            assert(pow(g, (hi - lo) as nat) % n != 1);
        }
    }
    assert(injective_on(f, xs));
    lemma_int_range(0, big_n as int);
    lemma_int_range(1, n);
    lemma_map_size(xs, ys, f);
    assert forall|y: int| ys.contains(y) implies rng.contains(y) by {
        let i = choose|i: int| xs.contains(i) && y == f(i);
        if y == 0 {
            lemma_pow_mul_mod(g, i as nat, (big_n - i) as nat, n);
            assert(i as nat + (big_n - i) as nat == big_n);
            lemma_small_mod(0, n as nat);
        }
    }
    lemma_subset_equality(ys, rng);
    assert forall|a: int| 0 < a < n implies #[trigger] generated(g, n, a) by {
        assert(rng.contains(a));
        let i = choose|i: int| xs.contains(i) && a == f(i);
        assert(pow(g, i as nat) % n == a);
    }
}

/// **Lucas's test**: if `g^(n−1) ≡ 1 (mod n)` and `g^((n−1)/q) ≢ 1` for every
/// `q` of a factorisation of `n − 1` into primes, then `n` is prime.
pub proof fn lemma_lucas(n: int, g: int, qs: Seq<int>)
    requires
        n > 2,
        prod(qs) == n - 1,
        forall|i: int| 0 <= i < qs.len() ==> is_prime(#[trigger] qs[i]),
        pow(g, (n - 1) as nat) % n == 1,
        forall|i: int| 0 <= i < qs.len() ==> #[trigger] pow(g, ((n - 1) / qs[i]) as nat) % n != 1,
    ensures
        is_prime(n),
{
    let big_n = (n - 1) as nat;
    let m = lemma_least_order(g, n, big_n);
    lemma_order_divides(g, n, m, big_n);
    lemma_fundamental_div_mod(big_n as int, m as int);
    if m < big_n {
        let k: int = (big_n as int) / (m as int);
        assert(k > 1) by (nonlinear_arith)
            requires
                big_n == m * k,
                m < big_n,
                m >= 1,
        ;
        lemma_mod_self_0(k);
        let r = lemma_least_divisor(k, k);
        lemma_fundamental_div_mod(k, r);
        let t: int = k / r;
        assert(big_n == r * (m * t)) by (nonlinear_arith)
            requires
                big_n == m * k,
                k == r * t,
        ;
        lemma_mod_multiples_basic(m * t, r);
        assert((m * t) * r == big_n);
        lemma_prime_in_factors(r, qs);
        let i = choose|i: int| 0 <= i < qs.len() && qs[i] == r;
        lemma_div_multiples_vanish(m * t, r);
        assert((big_n as int) / r == m * t);
        assert(t >= 1) by (nonlinear_arith)
            requires
                k == r * t,
                k > 1,
                r > 1,
        ;
        lemma_pow_one_mod(g, m, t as nat, n);
        assert(pow(g, ((n - 1) / qs[i]) as nat) % n != 1);
        assert(false);
    }
    lemma_generator_covers(g, n);
    assert forall|d: int| 1 < d < n implies #[trigger] (n % d) != 0 by {
        if n % d == 0 {
            assert(generated(g, n, d));
            let i = choose|i: nat| i < n - 1 && #[trigger] (pow(g, i) % n) == d;
            let b = pow(g, (big_n - i) as nat);
            lemma_pow_mul_mod(g, i, (big_n - i) as nat, n);
            assert(i + (big_n - i) as nat == big_n);
            // d·b = n·k + 1, yet d divides both d·b and n·k
            let db = d * b;
            lemma_fundamental_div_mod(db, n);
            lemma_divides_lin(d, n, 0, db / n, 0);
            lemma_mod_multiples_basic(b, d);
            assert(db == d * b);
            assert(db == n * (db / n) + 1);
            lemma_mod_self_0(d);
            lemma_divides_lin(d, db, n * (db / n), 1, -1);
            lemma_small_mod(1, d as nat);
        }
    }
}

} // verus!
