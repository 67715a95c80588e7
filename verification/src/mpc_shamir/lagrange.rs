//! Correctness of Lagrange reconstruction: the interpolation at 0 through the
//! points of a polynomial of degree below the number of points gives the
//! polynomial's constant term.
use crate::mpc_shamir::field::{gcd, inv_spec, lemma_inv_spec, p};
use crate::mpc_shamir::prime_modulus::lemma_distinct_coprime;
use crate::mpc_shamir::shamir::{
    basis_upto,
    distinct_points,
    lagrange_basis,
    poly_eval,
    recon_upto,
    reconstruct_spec,
    shares_of,
    sharing_coeffs,
    Share,
};
use vstd::arithmetic::div_mod::*;
use vstd::arithmetic::mul::*;
use vstd::prelude::*;

verus! {

// ── Polynomials as coefficient sequences over the integers ────────────────────
/// The coefficient of `X^i`, 0 beyond the end.
pub open spec fn coef(c: Seq<int>, i: int) -> int {
    if 0 <= i < c.len() {
        c[i]
    } else {
        0
    }
}

/// The coefficients after the constant one (empty for the empty polynomial).
pub open spec fn tail(c: Seq<int>) -> Seq<int> {
    if c.len() == 0 {
        c
    } else {
        c.drop_first()
    }
}

/// `c(x) = c[0] + x · (c[1] + x · (…))`.
pub open spec fn peval(c: Seq<int>, x: int) -> int
    decreases c.len(),
{
    if c.len() == 0 {
        0
    } else {
        c[0] + x * peval(c.drop_first(), x)
    }
}

pub open spec fn p_add(a: Seq<int>, b: Seq<int>) -> Seq<int> {
    Seq::new(
        if a.len() >= b.len() {
            a.len()
        } else {
            b.len()
        },
        |i: int| coef(a, i) + coef(b, i),
    )
}

pub open spec fn p_scale(a: Seq<int>, k: int) -> Seq<int> {
    a.map_values(|v: int| k * v)
}

/// `a · (X − r)`.
pub open spec fn p_mul_lin(a: Seq<int>, r: int) -> Seq<int>
    decreases a.len(),
{
    if a.len() == 0 {
        a
    } else {
        seq![-r * a[0]] + p_add(seq![a[0]], p_mul_lin(a.drop_first(), r))
    }
}

/// The quotient of `c` by `X − r` (synthetic division).
pub open spec fn p_div_lin(c: Seq<int>, r: int) -> Seq<int>
    decreases c.len(),
{
    if c.len() <= 1 {
        Seq::empty()
    } else {
        seq![peval(c.drop_first(), r)] + p_div_lin(c.drop_first(), r)
    }
}

proof fn lemma_peval_unfold(c: Seq<int>, x: int)
    ensures
        peval(c, x) == coef(c, 0) + x * peval(tail(c), x),
{
}

proof fn lemma_eval_add(a: Seq<int>, b: Seq<int>, x: int)
    ensures
        peval(p_add(a, b), x) == peval(a, x) + peval(b, x),
    decreases a.len() + b.len(),
{
    let s = p_add(a, b);
    if s.len() > 0 {
        assert(s.drop_first() =~= p_add(tail(a), tail(b)));
        lemma_eval_add(tail(a), tail(b), x);
        lemma_peval_unfold(a, x);
        lemma_peval_unfold(b, x);
        assert(x * peval(tail(a), x) + x * peval(tail(b), x) == x * (peval(tail(a), x) + peval(
            tail(b),
            x,
        ))) by (nonlinear_arith);
    }
}

proof fn lemma_eval_scale(a: Seq<int>, k: int, x: int)
    ensures
        peval(p_scale(a, k), x) == k * peval(a, x),
    decreases a.len(),
{
    if a.len() > 0 {
        assert(p_scale(a, k).drop_first() =~= p_scale(a.drop_first(), k));
        lemma_eval_scale(a.drop_first(), k, x);
        let r = peval(a.drop_first(), x);
        assert(k * a[0] + x * (k * r) == k * (a[0] + x * r)) by (nonlinear_arith);
    }
}

proof fn lemma_eval_mul_lin(a: Seq<int>, r: int, x: int)
    ensures
        peval(p_mul_lin(a, r), x) == (x - r) * peval(a, x),
        a.len() > 0 ==> p_mul_lin(a, r).len() == a.len() + 1,
        a.len() == 0 ==> p_mul_lin(a, r).len() == 0,
    decreases a.len(),
{
    if a.len() > 0 {
        let a0 = a[0];
        let t = a.drop_first();
        lemma_eval_mul_lin(t, r, x);
        let m = p_mul_lin(a, r);
        let rest = p_add(seq![a0], p_mul_lin(t, r));
        assert(m.drop_first() =~= rest);
        lemma_eval_add(seq![a0], p_mul_lin(t, r), x);
        assert(peval(seq![a0], x) == a0) by {
            reveal_with_fuel(peval, 2);
            assert(seq![a0].drop_first() =~= Seq::<int>::empty());
        }
        let pt = peval(t, x);
        assert(-r * a0 + x * (a0 + (x - r) * pt) == (x - r) * (a0 + x * pt)) by (nonlinear_arith);
    }
}

proof fn lemma_div_lin(c: Seq<int>, r: int, x: int)
    ensures
        peval(c, x) == (x - r) * peval(p_div_lin(c, r), x) + peval(c, r),
        p_div_lin(c, r).len() == (if c.len() == 0 {
            0
        } else {
            c.len() - 1
        }),
    decreases c.len(),
{
    if c.len() <= 1 {
        reveal_with_fuel(peval, 2);
        if c.len() == 1 {
            assert(c.drop_first() =~= Seq::<int>::empty());
        }
        assert(peval(Seq::<int>::empty(), x) == 0);
        assert((x - r) * 0 == 0) by (nonlinear_arith);
        assert(x * 0 == 0 && r * 0 == 0) by (nonlinear_arith);
    } else {
        let t = c.drop_first();
        lemma_div_lin(t, r, x);
        let g = p_div_lin(c, r);
        assert(g.drop_first() =~= p_div_lin(t, r));
        let gt = peval(p_div_lin(t, r), x);
        let tr = peval(t, r);
        let tx = peval(t, x);
        assert(c[0] + x * tx == (x - r) * (tr + x * gt) + (c[0] + r * tr)) by (nonlinear_arith)
            requires
                tx == (x - r) * gt + tr,
        ;
    }
}

/// A factor invertible modulo p can be cancelled from a product divisible by p.
proof fn lemma_cancel(a: int, b: int)
    requires
        (a * b) % p() == 0,
        gcd((a % p()) as nat, p() as nat) == 1,
    ensures
        b % p() == 0,
{
    let v = inv_spec(a);
    lemma_inv_spec(a);
    lemma_small_mod(1, p() as nat);
    assert((a * v) % p() == 1);
    // b ≡ b · (a · v) = (a · b) · v ≡ 0
    lemma_mul_mod_noop_right(b, a * v, p());
    assert(b * (a * v) == (a * b) * v) by (nonlinear_arith);
    lemma_mul_mod_noop_left(a * b, v, p());
    assert(b * 1 == b);
}

/// A polynomial with fewer coefficients than the points it vanishes on
/// (modulo p, at points with invertible differences) vanishes at 0.
proof fn lemma_vanishing(c: Seq<int>, xs: Seq<int>)
    requires
        c.len() <= xs.len(),
        forall|j: int| 0 <= j < xs.len() ==> #[trigger] peval(c, xs[j]) % p() == 0,
        forall|i: int, j: int|
            0 <= i < xs.len() && 0 <= j < xs.len() && i != j ==> gcd(
                ((#[trigger] xs[i] - #[trigger] xs[j]) % p()) as nat,
                p() as nat,
            ) == 1,
    ensures
        peval(c, 0) % p() == 0,
    decreases xs.len(),
{
    if c.len() == 0 {
    } else {
        let n = xs.len();
        let r = xs[n - 1];
        let g = p_div_lin(c, r);
        let ys = xs.drop_last();
        lemma_div_lin(c, r, 0);
        assert(peval(c, xs[n - 1]) % p() == 0);
        assert forall|j: int| 0 <= j < ys.len() implies #[trigger] peval(g, ys[j]) % p() == 0 by {
            lemma_div_lin(c, r, xs[j]);
            assert(peval(c, xs[j]) % p() == 0);
            let d = xs[j] - r;
            let e = peval(g, xs[j]);
            lemma_mod_sub_multiples_vanish(0, p());
            // (d · e) % p == (c(x_j) − c(r)) % p == 0
            lemma_sub_mod_noop(peval(c, xs[j]), peval(c, r), p());
            assert(gcd(((xs[j] - xs[n - 1]) % p()) as nat, p() as nat) == 1);
            lemma_cancel(d, e);
        }
        assert forall|i: int, j: int|
            0 <= i < ys.len() && 0 <= j < ys.len() && i != j implies gcd(
            ((#[trigger] ys[i] - #[trigger] ys[j]) % p()) as nat,
            p() as nat,
        ) == 1 by {
            assert(xs[i] == ys[i] && xs[j] == ys[j]);
        }
        lemma_vanishing(g, ys);
        // c(0) = (0 − r) · g(0) + c(r)
        lemma_mul_mod_noop_right(0 - r, peval(g, 0), p());
        lemma_add_mod_noop((0 - r) * peval(g, 0), peval(c, r), p());
        assert((0 - r) * 0 == 0);
    }
}

// ── The Lagrange interpolant through a sequence of shares ────────────────────
/// `Π_{m < t, m ≠ j} (x − x_m)` over the integers.
pub open spec fn lin_prod(s: Seq<Share>, j: int, t: nat, x: int) -> int
    decreases t,
{
    if t == 0 {
        1
    } else if t - 1 == j {
        lin_prod(s, j, (t - 1) as nat, x)
    } else {
        lin_prod(s, j, (t - 1) as nat, x) * (x - s[t - 1].x)
    }
}

/// The coefficients of `Π_{m < t, m ≠ j} (X − x_m)`.
pub open spec fn num_poly(s: Seq<Share>, j: int, t: nat) -> Seq<int>
    decreases t,
{
    if t == 0 {
        seq![1int]
    } else if t - 1 == j {
        num_poly(s, j, (t - 1) as nat)
    } else {
        p_mul_lin(num_poly(s, j, (t - 1) as nat), s[t - 1].x as int)
    }
}

/// `Π_{m < t, m ≠ j} (x_j − x_m)⁻¹` in GF(p).
pub open spec fn inv_prod(s: Seq<Share>, j: int, t: nat) -> int
    decreases t,
{
    if t == 0 {
        1
    } else if t - 1 == j {
        inv_prod(s, j, (t - 1) as nat)
    } else {
        (inv_prod(s, j, (t - 1) as nat) * inv_spec((s[j].x - s[t - 1].x) % p())) % p()
    }
}

/// `Σ_{j < t} y_j · (Π_{m ≠ j} (x_j − x_m)⁻¹) · Π_{m ≠ j} (X − x_m)`.
pub open spec fn interpolant(s: Seq<Share>, t: nat) -> Seq<int>
    decreases t,
{
    if t == 0 {
        Seq::empty()
    } else {
        let j = t - 1;
        p_add(
            interpolant(s, (t - 1) as nat),
            p_scale(num_poly(s, j, s.len()), s[j].y * inv_prod(s, j, s.len())),
        )
    }
}

proof fn lemma_num_poly(s: Seq<Share>, j: int, t: nat, x: int)
    requires
        0 <= j,
    ensures
        peval(num_poly(s, j, t), x) == lin_prod(s, j, t, x),
        num_poly(s, j, t).len() == t + 1 - (if j < t {
            1int
        } else {
            0
        }),
    decreases t,
{
    if t == 0 {
        reveal_with_fuel(peval, 2);
        assert(seq![1int].drop_first() =~= Seq::<int>::empty());
    } else {
        lemma_num_poly(s, j, (t - 1) as nat, x);
        if t - 1 != j {
            lemma_eval_mul_lin(num_poly(s, j, (t - 1) as nat), s[t - 1].x as int, x);
            let a = lin_prod(s, j, (t - 1) as nat, x);
            let d = x - s[t - 1].x;
            assert(d * a == a * d) by (nonlinear_arith);
        }
    }
}

proof fn lemma_lin_prod_root(s: Seq<Share>, j: int, t: nat, i: int)
    requires
        0 <= i < t,
        i != j,
    ensures
        lin_prod(s, j, t, s[i].x as int) == 0,
    decreases t,
{
    if t - 1 == i {
        assert(s[i].x as int - s[t - 1].x == 0);
        let a = lin_prod(s, j, (t - 1) as nat, s[i].x as int);
        assert(a * 0 == 0) by (nonlinear_arith);
    } else {
        lemma_lin_prod_root(s, j, (t - 1) as nat, i);
        if t - 1 != j {
            let d = s[i].x - s[t - 1].x;
            assert(0 * d == 0) by (nonlinear_arith);
        }
    }
}

/// Multiplying out a product of factors modulo p, two factors at a time.
proof fn lemma_mod_mul4(i: int, v: int, l: int, d: int, lhs: int)
    requires
        lhs == ((i * v) % p()) * (l * d),
    ensures
        lhs % p() == (((i * l) % p()) * ((v * d) % p())) % p(),
{
    lemma_mul_mod_noop_left(i * v, l * d, p());
    assert((i * v) * (l * d) == (i * l) * (v * d)) by (nonlinear_arith);
    lemma_mul_mod_noop((i * l), (v * d), p());
}

/// `Π (x_j − x_m)⁻¹ · Π (x_j − x_m) ≡ 1`.
proof fn lemma_inv_prod_at_node(s: Seq<Share>, j: int, t: nat)
    requires
        0 <= j < s.len(),
        t <= s.len(),
        distinct_points(s),
    ensures
        (inv_prod(s, j, t) * lin_prod(s, j, t, s[j].x as int)) % p() == 1,
    decreases t,
{
    if t == 0 {
    } else {
        lemma_inv_prod_at_node(s, j, (t - 1) as nat);
        if t - 1 != j {
            let m = t - 1;
            let i0 = inv_prod(s, j, (t - 1) as nat);
            let l0 = lin_prod(s, j, (t - 1) as nat, s[j].x as int);
            let d = s[j].x - s[m].x;
            let dr = d % p();
            let v = inv_spec(dr);
            lemma_inv_spec(dr);
            assert(gcd((dr % p()) as nat, p() as nat) == 1) by {
                lemma_mod_twice(d, p());
                lemma_distinct_coprime(s[j].x as int, s[m].x as int);
            }
            lemma_mul_mod_noop_right(v, d, p());
            assert((v * d) % p() == 1) by {
                assert(dr * v == v * dr) by (nonlinear_arith);
            }
            lemma_mod_mul4(i0, v, l0, d, ((i0 * v) % p()) * (l0 * d));
            assert(1int % p() == 1);
        }
    }
}

/// `Π (x_j − x_m)⁻¹ · Π (0 − x_m) ≡ Π (0 − x_m)/(x_j − x_m)`: the Lagrange basis.
proof fn lemma_inv_prod_at_zero(s: Seq<Share>, j: int, t: nat)
    requires
        0 <= j,
    ensures
        (inv_prod(s, j, t) * lin_prod(s, j, t, 0)) % p() == basis_upto(s, j, t),
    decreases t,
{
    if t == 0 {
    } else {
        lemma_inv_prod_at_zero(s, j, (t - 1) as nat);
        if t - 1 != j {
            let m = t - 1;
            let i0 = inv_prod(s, j, (t - 1) as nat);
            let l0 = lin_prod(s, j, (t - 1) as nat, 0);
            let d = 0 - s[m].x;
            let v = inv_spec((s[j].x - s[m].x) % p());
            lemma_mod_mul4(i0, v, l0, d, ((i0 * v) % p()) * (l0 * d));
            // basis · factor, factor = ((0 − x_m) % p · v) % p
            lemma_mul_mod_noop_left(d, v, p());
            assert(d * v == v * d) by (nonlinear_arith);
            assert((d % p()) * v == v * (d % p())) by (nonlinear_arith);
            lemma_mul_mod_noop_right(basis_upto(s, j, (t - 1) as nat), (d % p()) * v, p());
            lemma_mul_mod_noop_left(i0 * l0, (v * d) % p(), p());
            lemma_mul_mod_noop_right(i0 * l0, v * d, p());
            lemma_mul_mod_noop_left(i0 * l0, v * d, p());
        }
    }
}

proof fn lemma_interpolant(s: Seq<Share>, t: nat)
    requires
        t <= s.len(),
    ensures
        interpolant(s, t).len() <= s.len(),
        forall|x: int|
            #[trigger] peval(interpolant(s, t), x) == interpolant_sum(s, t, x),
    decreases t,
{
    if t > 0 {
        lemma_interpolant(s, (t - 1) as nat);
        let j = t - 1;
        let n = s.len();
        let np = num_poly(s, j, n);
        let k = s[j].y * inv_prod(s, j, n);
        assert forall|x: int| #[trigger] peval(interpolant(s, t), x) == interpolant_sum(s, t, x) by {
            lemma_eval_add(interpolant(s, (t - 1) as nat), p_scale(np, k), x);
            lemma_eval_scale(np, k, x);
            lemma_num_poly(s, j, n, x);
        }
        lemma_num_poly(s, j, n, 0);
    }
}

/// `Σ_{j < t} y_j · inv_prod_j · lin_prod_j(x)`: the interpolant's value.
pub open spec fn interpolant_sum(s: Seq<Share>, t: nat, x: int) -> int
    decreases t,
{
    if t == 0 {
        0
    } else {
        let j = t - 1;
        interpolant_sum(s, (t - 1) as nat, x) + (s[j].y * inv_prod(s, j, s.len())) * lin_prod(
            s,
            j,
            s.len(),
            x,
        )
    }
}

/// At a node `x_i`, only the term of `i` survives.
proof fn lemma_interpolant_at_node(s: Seq<Share>, t: nat, i: int)
    requires
        t <= s.len(),
        0 <= i < s.len(),
    ensures
        interpolant_sum(s, t, s[i].x as int) == (if i < t {
            (s[i].y * inv_prod(s, i, s.len())) * lin_prod(s, i, s.len(), s[i].x as int)
        } else {
            0
        }),
    decreases t,
{
    if t > 0 {
        lemma_interpolant_at_node(s, (t - 1) as nat, i);
        let j = t - 1;
        if j != i {
            lemma_lin_prod_root(s, j, s.len(), i);
            let k = s[j].y * inv_prod(s, j, s.len());
            assert(k * 0 == 0) by (nonlinear_arith);
        }
    }
}

/// At 0 the interpolant reduces to the Lagrange reconstruction.
proof fn lemma_interpolant_at_zero(s: Seq<Share>, t: nat)
    requires
        t <= s.len(),
    ensures
        interpolant_sum(s, t, 0) % p() == recon_upto(s, t),
    decreases t,
{
    if t == 0 {
        lemma_small_mod(0, p() as nat);
    } else {
        lemma_interpolant_at_zero(s, (t - 1) as nat);
        let j = t - 1;
        let n = s.len();
        let a = interpolant_sum(s, (t - 1) as nat, 0);
        let y = s[j].y as int;
        let w = inv_prod(s, j, n);
        let l = lin_prod(s, j, n, 0);
        lemma_inv_prod_at_zero(s, j, n);
        let b = lagrange_basis(s, j);
        assert(b == (w * l) % p());
        assert((y * w) * l == y * (w * l)) by (nonlinear_arith);
        lemma_mul_mod_noop_right(y, w * l, p());
        assert((y * (w * l)) % p() == (y * b) % p());
        lemma_add_mod_noop(a, y * (w * l), p());
        assert((a + (y * w) * l) % p() == ((a % p()) + (y * b) % p()) % p());
        assert(interpolant_sum(s, t, 0) == a + (y * w) * l);
        assert(a % p() == recon_upto(s, (t - 1) as nat));
        assert(recon_upto(s, t) == (recon_upto(s, (t - 1) as nat) + (y * b) % p()) % p());
    }
}

proof fn lemma_recon_bound(s: Seq<Share>, t: nat)
    ensures
        0 <= recon_upto(s, t) < p(),
    decreases t,
{
    if t > 0 {
        lemma_recon_bound(s, (t - 1) as nat);
    }
}

/// `poly_eval` over `i128` coefficients is `peval` over their integer values.
proof fn lemma_poly_eval_int(c: Seq<i128>, x: int)
    ensures
        poly_eval(c, x) == peval(c.map_values(|v: i128| v as int), x),
    decreases c.len(),
{
    if c.len() > 0 {
        assert(c.map_values(|v: i128| v as int).drop_first() =~= c.drop_first().map_values(
            |v: i128| v as int,
        ));
        lemma_poly_eval_int(c.drop_first(), x);
    }
}

/// **Lagrange reconstruction law**: shares `(x_j, P(x_j) mod p)` of a polynomial
/// with at most as many coefficients as there are shares, at x-coordinates whose
/// differences are invertible modulo p, reconstruct to the constant term `P(0)`.
pub proof fn lemma_reconstruct_correct(s: Seq<Share>, coeffs: Seq<i128>)
    requires
        1 <= coeffs.len() <= s.len(),
        distinct_points(s),
        forall|j: int| 0 <= j < s.len() ==> (#[trigger] s[j]).y == poly_eval(coeffs, s[j].x as int) % p(),
    ensures
        reconstruct_spec(s) == (coeffs[0] as int) % p(),
{
    let n = s.len();
    let c = coeffs.map_values(|v: i128| v as int);
    let q = interpolant(s, n);
    lemma_interpolant(s, n);
    let d = p_add(c, p_scale(q, -1));
    let xs = s.map_values(|sh: Share| sh.x as int);
    assert forall|j: int| 0 <= j < xs.len() implies #[trigger] peval(d, xs[j]) % p() == 0 by {
        let x = s[j].x as int;
        assert(xs[j] == x);
        lemma_eval_add(c, p_scale(q, -1), x);
        lemma_eval_scale(q, -1, x);
        lemma_poly_eval_int(coeffs, x);
        lemma_interpolant_at_node(s, n, j);
        lemma_inv_prod_at_node(s, j, n);
        let y = s[j].y as int;
        let w = inv_prod(s, j, n);
        let l = lin_prod(s, j, n, x);
        assert((y * w) * l == y * (w * l)) by (nonlinear_arith);
        lemma_mul_mod_noop_right(y, w * l, p());
        // c(x_j) − q(x_j) ≡ y_j − y_j
        lemma_sub_mod_noop(peval(c, x), y * (w * l), p());
        lemma_mod_twice(peval(c, x), p());
        assert(peval(c, x) + (-1) * peval(q, x) == peval(c, x) - y * (w * l));
    }
    assert forall|i: int, j: int|
        0 <= i < xs.len() && 0 <= j < xs.len() && i != j implies gcd(
        ((#[trigger] xs[i] - #[trigger] xs[j]) % p()) as nat,
        p() as nat,
    ) == 1 by {
        lemma_distinct_coprime(s[i].x as int, s[j].x as int);
    }
    assert(d.len() <= n);
    lemma_vanishing(d, xs);
    lemma_eval_add(c, p_scale(q, -1), 0);
    lemma_eval_scale(q, -1, 0);
    lemma_interpolant_at_zero(s, n);
    lemma_poly_eval_int(coeffs, 0);
    assert(peval(c, 0) == coeffs[0] as int) by {
        assert(c[0] == coeffs[0] as int);
        assert(0 * peval(c.drop_first(), 0) == 0);
    }
    lemma_sub_mod_noop(peval(c, 0), peval(q, 0), p());
    lemma_recon_bound(s, n);
    lemma_mod_twice(recon_upto(s, n), p());
}

// ── Linearity of reconstruction ───────────────────────────────────────────────
/// `a ≡ b (mod p)`.
pub open spec fn cong(a: int, b: int) -> bool {
    a % p() == b % p()
}

/// Congruences add.
pub proof fn lemma_cong_add(a: int, b: int, c: int, d: int)
    requires
        cong(a, b),
        cong(c, d),
    ensures
        cong(a + c, b + d),
{
    lemma_add_mod_noop(a, c, p());
    lemma_add_mod_noop(b, d, p());
}

/// A congruence survives multiplication by `k`.
pub proof fn lemma_cong_mul(a: int, b: int, k: int)
    requires
        cong(a, b),
    ensures
        cong(k * a, k * b),
{
    lemma_mul_mod_noop_right(k, a, p());
    lemma_mul_mod_noop_right(k, b, p());
}

/// A value is congruent to its remainder.
pub proof fn lemma_cong_mod(a: int)
    ensures
        cong(a % p(), a),
{
    lemma_mod_twice(a, p());
}

/// Two sequences of shares have the same x-coordinates.
pub open spec fn same_xs(s1: Seq<Share>, s2: Seq<Share>) -> bool {
    &&& s1.len() == s2.len()
    &&& forall|j: int| 0 <= j < s1.len() ==> (#[trigger] s1[j]).x == s2[j].x
}

proof fn lemma_basis_same_xs(s1: Seq<Share>, s2: Seq<Share>, j: int, t: nat)
    requires
        same_xs(s1, s2),
        0 <= j < s1.len(),
        t <= s1.len(),
    ensures
        basis_upto(s1, j, t) == basis_upto(s2, j, t),
    decreases t,
{
    if t > 0 {
        lemma_basis_same_xs(s1, s2, j, (t - 1) as nat);
        assert(s1[t - 1].x == s2[t - 1].x);
        assert(s1[j].x == s2[j].x);
    }
}

/// **Linearity of reconstruction**: shares (at the same points) of a linear
/// combination of two sharings reconstruct to that combination of the values.
pub proof fn lemma_reconstruct_linear(s1: Seq<Share>, s2: Seq<Share>, s3: Seq<Share>, k1: int, k2: int)
    requires
        same_xs(s1, s2),
        same_xs(s1, s3),
        forall|j: int| 0 <= j < s1.len() ==> cong((#[trigger] s3[j]).y as int, k1 * s1[j].y + k2 * s2[j].y),
    ensures
        reconstruct_spec(s3) == (k1 * reconstruct_spec(s1) + k2 * reconstruct_spec(s2)) % p(),
{
    lemma_recon_linear_upto(s1, s2, s3, k1, k2, s1.len());
}

proof fn lemma_recon_linear_upto(s1: Seq<Share>, s2: Seq<Share>, s3: Seq<Share>, k1: int, k2: int, t: nat)
    requires
        same_xs(s1, s2),
        same_xs(s1, s3),
        t <= s1.len(),
        forall|j: int| 0 <= j < s1.len() ==> cong((#[trigger] s3[j]).y as int, k1 * s1[j].y + k2 * s2[j].y),
    ensures
        recon_upto(s3, t) == (k1 * recon_upto(s1, t) + k2 * recon_upto(s2, t)) % p(),
    decreases t,
{
    if t == 0 {
        lemma_small_mod(0, p() as nat);
        assert(k1 * 0 + k2 * 0 == 0) by (nonlinear_arith);
    } else {
        lemma_recon_linear_upto(s1, s2, s3, k1, k2, (t - 1) as nat);
        let j = t - 1;
        lemma_basis_same_xs(s1, s2, j, s1.len());
        lemma_basis_same_xs(s1, s3, j, s1.len());
        let b = lagrange_basis(s1, j);
        assert(lagrange_basis(s2, j) == b && lagrange_basis(s3, j) == b);
        let (r1, r2, r3) = (recon_upto(s1, j as nat), recon_upto(s2, j as nat), recon_upto(s3, j as nat));
        let (y1, y2, y3) = (s1[j].y as int, s2[j].y as int, s3[j].y as int);
        let x1 = r1 + (y1 * b) % p();
        let x2 = r2 + (y2 * b) % p();
        // right side ≡ k1·x1 + k2·x2
        lemma_cong_mod(x1);
        lemma_cong_mod(x2);
        lemma_cong_mul(x1 % p(), x1, k1);
        lemma_cong_mul(x2 % p(), x2, k2);
        lemma_cong_add(k1 * (x1 % p()), k1 * x1, k2 * (x2 % p()), k2 * x2);
        // k1·x1 + k2·x2 ≡ (k1·r1 + k2·r2) + (k1·y1 + k2·y2)·b
        lemma_cong_mod(y1 * b);
        lemma_cong_mod(y2 * b);
        lemma_cong_mul((y1 * b) % p(), y1 * b, k1);
        lemma_cong_mul((y2 * b) % p(), y2 * b, k2);
        lemma_cong_add(k1 * ((y1 * b) % p()), k1 * (y1 * b), k2 * ((y2 * b) % p()), k2 * (y2 * b));
        let t1 = (y1 * b) % p();
        let t2 = (y2 * b) % p();
        assert(k1 * x1 + k2 * x2 == (k1 * r1 + k2 * r2) + (k1 * t1 + k2 * t2)) by (nonlinear_arith)
            requires
                x1 == r1 + t1,
                x2 == r2 + t2,
        ;
        assert(k1 * (y1 * b) + k2 * (y2 * b) == (k1 * y1 + k2 * y2) * b) by (nonlinear_arith);
        lemma_cong_add(
            k1 * r1 + k2 * r2,
            k1 * r1 + k2 * r2,
            k1 * ((y1 * b) % p()) + k2 * ((y2 * b) % p()),
            (k1 * y1 + k2 * y2) * b,
        );
        // left side ≡ r3 + y3·b, with r3 ≡ k1·r1 + k2·r2 and y3 ≡ k1·y1 + k2·y2
        let x3 = r3 + (y3 * b) % p();
        lemma_cong_mod(y3 * b);
        lemma_cong_mod(k1 * r1 + k2 * r2);
        assert(cong(y3, k1 * y1 + k2 * y2));
        lemma_mul_mod_noop_left(y3, b, p());
        lemma_mul_mod_noop_left(k1 * y1 + k2 * y2, b, p());
        assert(cong(y3 * b, (k1 * y1 + k2 * y2) * b));
        lemma_cong_add(r3, k1 * r1 + k2 * r2, (y3 * b) % p(), (k1 * y1 + k2 * y2) * b);
        assert(recon_upto(s3, t) == x3 % p());
        assert(recon_upto(s1, t) == x1 % p());
        assert(recon_upto(s2, t) == x2 % p());
    }
}

/// **Any `k` of the shares of a split reconstruct the secret**: shares taken
/// from the output of a split with threshold `k`, at least `k` of them at
/// points distinct modulo p, reconstruct to the secret modulo p.
pub proof fn lemma_split_reconstruct(c: Seq<i128>, secret: i128, k: nat, n: nat, s: Seq<Share>)
    requires
        sharing_coeffs(c, secret, k),
        n <= usize::MAX,
        k <= s.len(),
        distinct_points(s),
        forall|j: int|
            0 <= j < s.len() ==> exists|i: int| 0 <= i < n && #[trigger] s[j] == shares_of(c, n)[i],
    ensures
        reconstruct_spec(s) == (secret as int) % p(),
{
    assert forall|j: int| 0 <= j < s.len() implies (#[trigger] s[j]).y == poly_eval(c, s[j].x as int)
        % p() by {
        let i = choose|i: int| 0 <= i < n && s[j] == shares_of(c, n)[i];
        assert(0 < i + 1 <= usize::MAX);
        assert(s[j].x == i + 1);
    }
    lemma_reconstruct_correct(s, c);
}

} // verus!
