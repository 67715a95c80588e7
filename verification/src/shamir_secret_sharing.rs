//! Shamir's secret sharing over GF(p), p = 2^61 − 1, refusing to divide by a
//! non-invertible difference of x-coordinates.
use crate::mpc_shamir::field::{ext_gcd, fits_i128, gcd, inv_spec, lemma_ext_gcd_props, p};
use crate::mpc_shamir::shamir::{
    basis_upto,
    distinct_points,
    lagrange_basis,
    recon_upto,
    reconstruct_spec,
    reconstructible,
    shares_of,
    sharing_coeffs,
};
use vstd::arithmetic::div_mod::*;
use vstd::prelude::*;

pub use crate::mpc_shamir::field::PRIME;
pub use crate::mpc_shamir::shamir::Share;

verus! {

/// The inverse of `a` modulo p; `a` must be invertible.
fn mod_inverse(a: i128) -> (r: i128)
    requires
        0 <= a < p(),
        gcd(a as nat, p() as nat) == 1,
    ensures
        r == inv_spec(a as int),
        0 <= r < p(),
        (a * r) % p() == 1,
{
    proof {
        crate::mpc_shamir::field::lemma_inv_spec(a as int);
        lemma_ext_gcd_props(a as nat, p() as nat);
        lemma_small_mod(a as nat, p() as nat);
        assert((a as int) % p() == a);
        assert(1int % p() == 1);
    }
    let (g, x, _) = crate::mpc_shamir::field::extended_gcd(a, PRIME);
    assert(g == 1);
    crate::mpc_shamir::field::reduce(x)
}

fn div(a: i128, b: i128) -> (r: i128)
    requires
        0 <= a < p(),
        0 <= b < p(),
        gcd(b as nat, p() as nat) == 1,
    ensures
        r == (a * inv_spec(b as int)) % p(),
        0 <= r < p(),
{
    let inv = mod_inverse(b);
    proof {
        assert(a * inv <= p() * p()) by (nonlinear_arith)
            requires
                0 <= a < p(),
                0 <= inv < p(),
        ;
        assert(a * inv >= 0) by (nonlinear_arith)
            requires
                0 <= a,
                0 <= inv,
        ;
    }
    crate::mpc_shamir::field::mul(a, inv)
}

/// Split `secret` into `n` shares with threshold `k` (a threshold of 0 acts as 1).
pub fn split_secret(secret: i128, n: usize, k: usize) -> (shares: Vec<Share>)
    requires
        k <= n,
        secret < p(),
    ensures
        exists|c: Seq<i128>|
            sharing_coeffs(
                c,
                secret,
                if k == 0 {
                    1
                } else {
                    k as nat
                },
            ) && shares@ == shares_of(c, n as nat),
{
    let mut rng = crate::rng::thread_rng();
    let mut coeffs: Vec<i128> = Vec::new();
    coeffs.push(secret);
    let mut i: usize = 1;
    while i < k
        invariant
            1 <= i,
            i <= k || (k == 0 && i == 1),
            coeffs@.len() == i,
            coeffs@[0] == secret,
            secret < p(),
            forall|j: int| 1 <= j < i ==> 0 <= #[trigger] coeffs@[j] < p(),
        decreases k - i,
    {
        let rand_coeff = crate::rng::gen_range_i128(&mut rng, 0, PRIME);
        coeffs.push(rand_coeff);
        i = i + 1;
    }
    let shares = crate::mpc_shamir::shamir::shares_from_coefficients(coeffs.as_slice(), n);
    assert(sharing_coeffs(
        coeffs@,
        secret,
        if k == 0 {
            1
        } else {
            k as nat
        },
    ));
    shares
}

/// Reconstruct the secret from shares by Lagrange interpolation at 0.
pub fn reconstruct_secret(shares: &[Share]) -> (r: i128)
    requires
        reconstructible(shares@),
        distinct_points(shares@),
    ensures
        r == reconstruct_spec(shares@),
        0 <= r < p(),
{
    let ghost s = shares@;
    let mut secret = 0i128;
    let mut j: usize = 0;
    while j < shares.len()
        invariant
            s == shares@,
            reconstructible(s),
            distinct_points(s),
            j <= s.len(),
            secret == recon_upto(s, j as nat),
            0 <= secret < p(),
        decreases s.len() - j,
    {
        let share_j = shares[j];
        let mut basis = 1i128;
        let mut m: usize = 0;
        while m < shares.len()
            invariant
                s == shares@,
                reconstructible(s),
                distinct_points(s),
                j < s.len(),
                share_j == s[j as int],
                m <= s.len(),
                basis == basis_upto(s, j as int, m as nat),
                0 <= basis < p(),
            decreases s.len() - m,
        {
            if j != m {
                let share_m = shares[m];
                assert(fits_i128(0 - s[m as int].x));
                assert(fits_i128(s[j as int].x - s[m as int].x));
                let num = crate::mpc_shamir::field::sub(0, share_m.x);
                let den = crate::mpc_shamir::field::sub(share_j.x, share_m.x);
                proof {
                    crate::mpc_shamir::prime_modulus::lemma_distinct_coprime(
                        s[j as int].x as int,
                        s[m as int].x as int,
                    );
                }
                let d = self::div(num, den);
                proof {
                    assert(basis * d <= p() * p()) by (nonlinear_arith)
                        requires
                            0 <= basis < p(),
                            0 <= d < p(),
                    ;
                    assert(basis * d >= 0) by (nonlinear_arith)
                        requires
                            0 <= basis,
                            0 <= d,
                    ;
                }
                basis = crate::mpc_shamir::field::mul(basis, d);
            }
            m = m + 1;
        }
        assert(fits_i128(s[j as int].y * lagrange_basis(s, j as int)));
        let t = crate::mpc_shamir::field::mul(share_j.y, basis);
        secret = crate::mpc_shamir::field::add(secret, t);
        j = j + 1;
    }
    secret
}

} // verus!
