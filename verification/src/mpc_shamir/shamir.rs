//! Shamir's secret sharing over GF(p): split a secret into points of a random
//! polynomial and reconstruct it by Lagrange interpolation at 0.
use crate::mpc_shamir::field::{fits_i128, gcd, inv_spec, p, PRIME};
use vstd::arithmetic::div_mod::*;
use vstd::prelude::*;

verus! {

/// A single share: the point  (x, y = P(x))  on the secret polynomial.
/// Each party i holds the share where x = i.
#[derive(Debug, Clone, Copy, PartialEq, Eq, Structural)]
pub struct Share {
    /// x-coordinate — the party index (1-indexed).
    pub x: i128,
    /// y-coordinate — the secret-shared value  P(x).
    pub y: i128,
}

/// `c[0] + c[1]·x + c[2]·x² + …` over the integers.
pub open spec fn poly_eval(coeffs: Seq<i128>, x: int) -> int
    decreases coeffs.len(),
{
    if coeffs.len() == 0 {
        0
    } else {
        coeffs[0] + x * poly_eval(coeffs.drop_first(), x)
    }
}

/// The coefficients of a sharing polynomial for `secret` with threshold `k`:
/// `k` coefficients, the constant one the secret, the others field elements.
pub open spec fn sharing_coeffs(coeffs: Seq<i128>, secret: i128, k: nat) -> bool {
    &&& coeffs.len() == k
    &&& k >= 1
    &&& coeffs[0] == secret
    &&& forall|i: int| 1 <= i < k ==> 0 <= #[trigger] coeffs[i] < p()
}

/// The shares `(i, P(i) mod p)` for `i = 1..=n`.
pub open spec fn shares_of(coeffs: Seq<i128>, n: nat) -> Seq<Share> {
    Seq::new(n, |i: int| Share { x: (i + 1) as i128, y: (poly_eval(coeffs, i + 1) % p()) as i128 })
}

/// The factor `(0 − x_m) / (x_j − x_m)` of the Lagrange basis `L_j(0)`, in GF(p).
pub open spec fn lagrange_factor(s: Seq<Share>, j: int, m: int) -> int {
    ((((0 - s[m].x) % p()) * inv_spec((s[j].x - s[m].x) % p())) % p())
}

/// The product of the Lagrange factors of share `j` over the shares before `t`.
pub open spec fn basis_upto(s: Seq<Share>, j: int, t: nat) -> int
    decreases t,
{
    if t == 0 {
        1
    } else if t - 1 == j {
        basis_upto(s, j, (t - 1) as nat)
    } else {
        (basis_upto(s, j, (t - 1) as nat) * lagrange_factor(s, j, t - 1)) % p()
    }
}

/// The Lagrange basis `L_j(0) = Π_{m ≠ j} (0 − x_m) / (x_j − x_m)` in GF(p).
pub open spec fn lagrange_basis(s: Seq<Share>, j: int) -> int {
    basis_upto(s, j, s.len())
}

/// `Σ_{j < t} y_j · L_j(0)` in GF(p).
pub open spec fn recon_upto(s: Seq<Share>, t: nat) -> int
    decreases t,
{
    if t == 0 {
        0
    } else {
        (recon_upto(s, (t - 1) as nat) + (s[t - 1].y * lagrange_basis(s, t - 1)) % p()) % p()
    }
}

/// The value at 0 of the polynomial through the shares, by Lagrange interpolation.
pub open spec fn reconstruct_spec(s: Seq<Share>) -> int {
    recon_upto(s, s.len())
}

/// The x-coordinates of the shares are distinct modulo p.
pub open spec fn distinct_points(s: Seq<Share>) -> bool {
    forall|j: int, m: int|
        0 <= j < s.len() && 0 <= m < s.len() && j != m ==> (#[trigger] s[j]).x as int % p() != (
        #[trigger] s[m]).x as int % p()
}

/// The arithmetic of the interpolation stays within `i128`.
pub open spec fn reconstructible(s: Seq<Share>) -> bool {
    &&& forall|m: int| 0 <= m < s.len() ==> fits_i128(0 - #[trigger] s[m].x)
    &&& forall|j: int, m: int|
        0 <= j < s.len() && 0 <= m < s.len() ==> fits_i128(#[trigger] s[j].x - #[trigger] s[m].x)
    &&& forall|j: int| 0 <= j < s.len() ==> fits_i128(#[trigger] s[j].y * lagrange_basis(s, j))
}

proof fn lemma_basis_range(s: Seq<Share>, j: int, t: nat)
    ensures
        0 <= basis_upto(s, j, t) < p(),
    decreases t,
{
    if t > 0 {
        lemma_basis_range(s, j, (t - 1) as nat);
    }
}

proof fn lemma_recon_range(s: Seq<Share>, t: nat)
    ensures
        0 <= recon_upto(s, t) < p(),
    decreases t,
{
    if t > 0 {
        lemma_recon_range(s, (t - 1) as nat);
    }
}

/// Evaluate  P(x) = coeffs[0] + coeffs[1]·x + coeffs[2]·x² + …
/// using Horner's method:  P(x) = coeffs[0] + x·(coeffs[1] + x·(…))
fn eval_poly(coeffs: &[i128], x: i128) -> (r: i128)
    requires
        forall|i: int| 0 <= i < coeffs@.len() ==> #[trigger] coeffs@[i] < p(),
        0 <= x <= 0x1_0000_0000_0000_0000,
    ensures
        r == poly_eval(coeffs@, x as int) % p(),
{
    let mut result = 0i128;
    let mut i = coeffs.len();
    assert(coeffs@.skip(i as int) =~= Seq::<i128>::empty());
    while i > 0
        invariant
            i <= coeffs@.len(),
            forall|k: int| 0 <= k < coeffs@.len() ==> #[trigger] coeffs@[k] < p(),
            0 <= x <= 0x1_0000_0000_0000_0000,
            0 <= result < p(),
            result == poly_eval(coeffs@.skip(i as int), x as int) % p(),
        decreases i,
    {
        i = i - 1;
        let c = coeffs[i];
        let ghost e = poly_eval(coeffs@.skip(i + 1), x as int);
        proof {
            assert(coeffs@.skip(i as int).drop_first() =~= coeffs@.skip(i + 1));
            assert(result * x <= p() * 0x1_0000_0000_0000_0000) by (nonlinear_arith)
                requires
                    0 <= result < p(),
                    0 <= x <= 0x1_0000_0000_0000_0000,
            ;
            assert(result * x >= 0) by (nonlinear_arith)
                requires
                    0 <= result,
                    0 <= x,
            ;
        }
        let rx = crate::mpc_shamir::field::mul(result, x);
        result = crate::mpc_shamir::field::add(rx, c);
        proof {
            lemma_mul_mod_noop_left(e, x as int, p());
            assert(e * x == x * e) by (nonlinear_arith);
            lemma_add_mod_noop(x * e, c as int, p());
            lemma_add_mod_noop((e % p()) * x, c as int, p());
            lemma_mod_twice(c as int, p());
        }
    }
    assert(coeffs@.skip(0) =~= coeffs@);
    result
}

/// The shares `(i, P(i) mod p)`, `i = 1..=n`, of the polynomial with the given
/// coefficients (constant term first).
pub fn shares_from_coefficients(coeffs: &[i128], n: usize) -> (shares: Vec<Share>)
    requires
        forall|i: int| 0 <= i < coeffs@.len() ==> #[trigger] coeffs@[i] < p(),
    ensures
        shares@ == shares_of(coeffs@, n as nat),
{
    let mut shares: Vec<Share> = Vec::new();
    let mut i: usize = 0;
    while i < n
        invariant
            i <= n,
            forall|k: int| 0 <= k < coeffs@.len() ==> #[trigger] coeffs@[k] < p(),
            shares@ == shares_of(coeffs@, n as nat).subrange(0, i as int),
        decreases n - i,
    {
        let x = (i as i128) + 1;
        let y = eval_poly(coeffs, x);
        shares.push(Share { x, y });
        i = i + 1;
        assert(shares@ =~= shares_of(coeffs@, n as nat).subrange(0, i as int));
    }
    assert(shares@ =~= shares_of(coeffs@, n as nat));
    shares
}

/// Split `secret` into `n` shares with threshold `k`.
///
/// * `k`  — minimum shares needed to reconstruct (threshold).
/// * `n`  — total shares created  (n ≥ k).
///
/// Returns a Vec of n shares.  The polynomial has degree k−1; its coefficients
/// other than the secret are drawn at random.
pub fn split(secret: i128, n: usize, k: usize) -> (shares: Vec<Share>)
    requires
        1 <= k <= n,
        secret < p(),
    ensures
        exists|c: Seq<i128>| sharing_coeffs(c, secret, k as nat) && shares@ == shares_of(c, n as nat),
{
    let mut rng = crate::rng::thread_rng();
    // coeffs[0] = secret  (the constant term, i.e. P(0))
    // coeffs[1..k] are random field elements
    let mut coeffs: Vec<i128> = Vec::new();
    coeffs.push(secret);
    let mut i: usize = 1;
    while i < k
        invariant
            1 <= i <= k,
            coeffs@.len() == i,
            coeffs@[0] == secret,
            secret < p(),
            forall|j: int| 1 <= j < i ==> 0 <= #[trigger] coeffs@[j] < p(),
        decreases k - i,
    {
        let c = crate::rng::gen_range_i128(&mut rng, 0, PRIME);
        coeffs.push(c);
        i = i + 1;
    }
    let shares = shares_from_coefficients(coeffs.as_slice(), n);
    assert(sharing_coeffs(coeffs@, secret, k as nat));
    shares
}

/// Reconstruct the secret P(0) from `k` or more shares.
///
/// Uses Lagrange interpolation at x = 0:
///
///   P(0) = Σⱼ  yⱼ · Lⱼ(0)
///
/// where the j-th Lagrange basis polynomial evaluated at 0 is:
///
///   Lⱼ(0) = Π_{m ≠ j}  (0 − xₘ) / (xⱼ − xₘ)
pub fn reconstruct(shares: &[Share]) -> (r: i128)
    requires
        reconstructible(shares@),
    ensures
        r == reconstruct_spec(shares@),
        0 <= r < p(),
{
    let ghost s = shares@;
    let mut secret = 0i128;
    let mut j: usize = 0;
    while j < shares.len()
        invariant
            s == shares@,
            reconstructible(s),
            j <= s.len(),
            secret == recon_upto(s, j as nat),
            0 <= secret < p(),
        decreases s.len() - j,
    {
        let sj = shares[j];
        // Compute the Lagrange basis  Lⱼ(0)
        let mut basis = 1i128;
        let mut m: usize = 0;
        while m < shares.len()
            invariant
                s == shares@,
                reconstructible(s),
                j < s.len(),
                sj == s[j as int],
                m <= s.len(),
                basis == basis_upto(s, j as int, m as nat),
                0 <= basis < p(),
            decreases s.len() - m,
        {
            if j != m {
                let sm = shares[m];
                assert(fits_i128(0 - s[m as int].x));
                assert(fits_i128(s[j as int].x - s[m as int].x));
                let num = crate::mpc_shamir::field::sub(0, sm.x);  // 0 − xₘ  mod p
                let den = crate::mpc_shamir::field::sub(sj.x, sm.x);  // xⱼ − xₘ mod p
                proof {
                    crate::mpc_shamir::field::lemma_inv_spec(den as int);
                    let iv = inv_spec(den as int);
                    assert(num * iv <= p() * p()) by (nonlinear_arith)
                        requires
                            0 <= num < p(),
                            0 <= iv < p(),
                    ;
                    assert(num * iv >= 0) by (nonlinear_arith)
                        requires
                            0 <= num,
                            0 <= iv,
                    ;
                }
                let d = crate::mpc_shamir::field::div(num, den);
                proof {
                    assert(basis * d <= p() * p()) by (nonlinear_arith)
                        requires
                            0 <= basis < p(),
                            0 <= d < p(),
                    ;
                    assert(basis * d >= 0) by (nonlinear_arith)
                        requires
                            0 <= basis,
                            0 <= d,
                    ;
                }
                basis = crate::mpc_shamir::field::mul(basis, d);
            }
            m = m + 1;
        }
        assert(fits_i128(s[j as int].y * lagrange_basis(s, j as int)));
        let t = crate::mpc_shamir::field::mul(sj.y, basis);
        secret = crate::mpc_shamir::field::add(secret, t);
        j = j + 1;
    }
    secret
}

} // verus!
