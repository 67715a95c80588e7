//! Arithmetic in the prime field GF(p), p = 2^61 - 1 (a Mersenne prime).
use crate::mpc_shamir::prime_modulus::lemma_nonzero_coprime;
use vstd::arithmetic::div_mod::*;
use vstd::prelude::*;

verus! {

/// p = 2^61 − 1.
pub const PRIME: i128 = 2_305_843_009_213_693_951;

/// The modulus as a mathematical integer.
pub open spec fn p() -> int {
    PRIME as int
}

/// Whether a value fits in an `i128`.
pub open spec fn fits_i128(v: int) -> bool {
    i128::MIN <= v <= i128::MAX
}

/// Greatest common divisor by Euclid's algorithm.
pub open spec fn gcd(a: nat, b: nat) -> nat
    decreases a,
{
    if a == 0 {
        b
    } else {
        gcd(b % a, a)
    }
}

/// The extended Euclidean algorithm: `(g, x, y)` with `a·x + b·y = g = gcd(a, b)`.
pub open spec fn ext_gcd(a: nat, b: nat) -> (int, int, int)
    decreases a,
{
    if a == 0 {
        (b as int, 0, 1)
    } else {
        let r = ext_gcd(b % a, a);
        (r.0, r.2 - (b / a) as int * r.1, r.1)
    }
}

/// The representative in `[0, p)` of `a⁻¹`, from the Bezout coefficient of `a mod p`.
pub open spec fn inv_spec(a: int) -> int {
    ext_gcd((a % p()) as nat, p() as nat).1 % p()
}

pub proof fn lemma_ext_gcd_props(a: nat, b: nat)
    ensures
        ext_gcd(a, b).0 == gcd(a, b),
        a * ext_gcd(a, b).1 + b * ext_gcd(a, b).2 == ext_gcd(a, b).0,
        -(if b == 0 { 1 } else { b as int }) <= ext_gcd(a, b).1 <= (if b == 0 { 1 } else { b as int }),
        -(if a == 0 { 1 } else { a as int }) <= ext_gcd(a, b).2 <= (if a == 0 { 1 } else { a as int }),
        a == 0 ==> ext_gcd(a, b).1 == 0 && ext_gcd(a, b).2 == 1,
    decreases a,
{
    if a != 0 {
        let r = b % a;
        let q = b / a;
        lemma_ext_gcd_props(r, a);
        let (g, x1, y1) = ext_gcd(r, a);
        lemma_fundamental_div_mod(b as int, a as int);
        assert(a * (y1 - q * x1) + b * x1 == r * x1 + a * y1) by (nonlinear_arith)
            requires
                b == a * q + r,
        ;
        if r == 0 {
            assert(x1 == 0 && y1 == 1);
            assert(q * x1 == 0) by (nonlinear_arith)
                requires
                    x1 == 0,
            ;
        } else {
            assert(-(b as int) <= y1 - q * x1 <= b) by (nonlinear_arith)
                requires
                    b == a * q + r,
                    -(r as int) <= y1 <= r,
                    -(a as int) <= x1 <= a,
                    q >= 0,
            ;
        }
    }
}

/// Extended Euclidean algorithm: returns `(g, x, y)` with `a·x + b·y = g = gcd(a, b)`.
pub(crate) fn extended_gcd(a: i128, b: i128) -> (r: (i128, i128, i128))
    requires
        0 <= a,
        0 <= b,
    ensures
        r.0 == ext_gcd(a as nat, b as nat).0,
        r.1 == ext_gcd(a as nat, b as nat).1,
        r.2 == ext_gcd(a as nat, b as nat).2,
    decreases a,
{
    proof {
        lemma_ext_gcd_props(a as nat, b as nat);
    }
    if a == 0 {
        (b, 0, 1)
    } else {
        let (g, x, y) = extended_gcd(b % a, a);
        proof {
            lemma_ext_gcd_props((b % a) as nat, a as nat);
            lemma_fundamental_div_mod(b as int, a as int);
            assert(-(b as int) <= (b / a) * x <= b) by (nonlinear_arith)
                requires
                    -(a as int) <= x <= a,
                    0 <= b / a,
                    (b / a) * a <= b,
            ;
        }
        (g, y - (b / a) * x, x)
    }
}


/// Reduces `v` to its representative in `[0, p)`.
pub(crate) fn reduce(v: i128) -> (r: i128)
    ensures
        r == (v as int) % p(),
        0 <= r < p(),
{
    match v.checked_rem_euclid(PRIME) {
        Some(r) => r,
        None => 0,
    }
}

/// (a + b) mod p
pub fn add(a: i128, b: i128) -> (r: i128)
    requires
        fits_i128(a + b),
    ensures
        r == (a + b) % p(),
        0 <= r < p(),
{
    reduce(a + b)
}

/// (a − b) mod p   (result is always in [0, p))
pub fn sub(a: i128, b: i128) -> (r: i128)
    requires
        fits_i128(a - b),
    ensures
        r == (a - b) % p(),
        0 <= r < p(),
{
    reduce(a - b)
}

/// (a × b) mod p
pub fn mul(a: i128, b: i128) -> (r: i128)
    requires
        fits_i128(a * b),
    ensures
        r == (a * b) % p(),
        0 <= r < p(),
{
    reduce(a * b)
}

/// The Bezout coefficients of `a mod p` bound the inverse: `a · a⁻¹ ≡ gcd(a mod p, p)`.
pub proof fn lemma_inv_spec(a: int)
    ensures
        0 <= inv_spec(a) < p(),
        (a * inv_spec(a)) % p() == (gcd((a % p()) as nat, p() as nat) as int) % p(),
{
    let ar = (a % p()) as nat;
    let e = ext_gcd(ar, p() as nat);
    lemma_ext_gcd_props(ar, p() as nat);
    let x = e.1;
    let y = e.2;
    assert(ar * x + p() * y == gcd(ar, p() as nat));
    lemma_mod_multiples_vanish(y, ar * x, p());
    assert((ar * x) % p() == (gcd(ar, p() as nat) as int) % p()) by {
        assert(p() * y + ar * x == ar * x + p() * y);
        assert((p() * y + ar * x) % p() == (ar * x) % p());
    }
    lemma_mul_mod_noop(a, x, p());
    lemma_mul_mod_noop(ar as int, x, p());
    lemma_mod_twice(a, p());
    lemma_mod_twice(x, p());
    assert((a * (x % p())) % p() == (ar * x) % p()) by {
        lemma_mul_mod_noop(a, x % p(), p());
    }
}

/// Modular inverse: returns x such that  (a · x) mod p = 1.
/// Used to implement division in GF(p).
pub fn mod_inverse(a: i128) -> (r: i128)
    ensures
        r == inv_spec(a as int),
        0 <= r < p(),
        (a as int) % p() != 0 ==> (a * r) % p() == 1,
        (a as int) % p() == 0 ==> r == 0,
{
    proof {
        lemma_inverse_identity(a as int);
        lemma_ext_gcd_props(((a as int) % p()) as nat, p() as nat);
        if (a as int) % p() == 0 {
            lemma_small_mod(0, p() as nat);
        }
    }
    let (_, x, _) = extended_gcd(reduce(a), PRIME);
    reduce(x)
}

/// **Every non-zero element has an inverse**: `a · a⁻¹ ≡ 1` for `a ≢ 0`.
pub proof fn lemma_inverse_identity(a: int)
    ensures
        0 <= inv_spec(a) < p(),
        a % p() != 0 ==> (a * inv_spec(a)) % p() == 1,
{
    lemma_inv_spec(a);
    if a % p() != 0 {
        lemma_nonzero_coprime(a);
        lemma_small_mod(1, p() as nat);
    }
}

/// **Subtraction undoes addition**: `(a + b) − b ≡ a`.
pub proof fn lemma_add_sub_roundtrip(a: int, b: int)
    ensures
        ((a + b) % p() - b) % p() == a % p(),
{
    lemma_sub_mod_noop(a + b, b, p());
    lemma_mod_twice(b, p());
    lemma_sub_mod_noop((a + b) % p(), b % p(), p());
    lemma_sub_mod_noop((a + b) % p(), b, p());
    lemma_mod_twice(a + b, p());
}

/// **Division undoes multiplication** by a non-zero element: `(a · b) / b ≡ a`.
pub proof fn lemma_mul_div_roundtrip(a: int, b: int)
    requires
        b % p() != 0,
    ensures
        (((a * b) % p()) * inv_spec(b)) % p() == a % p(),
{
    lemma_inverse_identity(b);
    let v = inv_spec(b);
    lemma_mul_mod_noop_left(a * b, v, p());
    assert((a * b) * v == a * (b * v)) by (nonlinear_arith);
    lemma_mul_mod_noop_right(a, b * v, p());
    assert(a * 1 == a);
}

/// (a / b) mod p  =  a · b^{−1} mod p
pub fn div(a: i128, b: i128) -> (r: i128)
    requires
        fits_i128(a * inv_spec(b as int)),
    ensures
        r == (a * inv_spec(b as int)) % p(),
        0 <= r < p(),
{
    self::mul(a, mod_inverse(b))
}

} // verus!
