//! What opening the results of the protocol operations gives: the local
//! operations on shares act on the shared values, sharing a secret and
//! opening it gives the secret back, and a Beaver multiplication opens to
//! the product.
use crate::mpc_shamir::field::p;
use crate::mpc_shamir::lagrange::{
    cong,
    lemma_cong_add,
    lemma_cong_mod,
    lemma_reconstruct_correct,
    lemma_reconstruct_linear,
    same_xs,
};
use crate::mpc_shamir::party::PartyView;
use crate::mpc_shamir::protocol::{
    add_all,
    beaver_share,
    del_label,
    eps_label,
    input_all,
    masked,
    mul_all,
    open_spec,
    opened_shares,
    scalar_all,
    sub_all,
};
use crate::mpc_shamir::shamir::{distinct_points, poly_eval, reconstruct_spec, Share};
use vstd::arithmetic::div_mod::*;
use vstd::prelude::*;

verus! {

/// Opened shares of two labels of the same parties lie at the same points.
proof fn lemma_opened_same_xs(ps: Seq<PartyView>, qs: Seq<PartyView>, l1: Seq<char>, l2: Seq<char>, t: nat)
    requires
        ps.len() == qs.len(),
        forall|i: int| 0 <= i < ps.len() ==> (#[trigger] ps[i]).id == qs[i].id,
    ensures
        same_xs(opened_shares(ps, l1, t), opened_shares(qs, l2, t)),
{
    let s1 = opened_shares(ps, l1, t);
    let s2 = opened_shares(qs, l2, t);
    assert forall|j: int| 0 <= j < s1.len() implies (#[trigger] s1[j]).x == s2[j].x by {
        assert(ps[j].id == qs[j].id);
    }
}

/// **Addition is homomorphic**: after `add`, the parties open `result` to the
/// sum modulo p of what they open for `x` and for `y`.
pub proof fn lemma_open_add(ps: Seq<PartyView>, result: Seq<char>, x: Seq<char>, y: Seq<char>, t: nat)
    ensures
        open_spec(add_all(ps, result, x, y), result, t) == (open_spec(ps, x, t) + open_spec(ps, y, t))
            % p(),
{
    let qs = add_all(ps, result, x, y);
    let s1 = opened_shares(ps, x, t);
    let s2 = opened_shares(ps, y, t);
    let s3 = opened_shares(qs, result, t);
    lemma_opened_same_xs(ps, ps, x, y, t);
    lemma_opened_same_xs(ps, qs, x, result, t);
    assert forall|j: int| 0 <= j < s1.len() implies cong(
        (#[trigger] s3[j]).y as int,
        1 * s1[j].y + 1 * s2[j].y,
    ) by {
        lemma_mod_twice(s1[j].y + s2[j].y, p());
    }
    lemma_reconstruct_linear(s1, s2, s3, 1, 1);
}

/// **Subtraction is homomorphic**: after `sub`, the parties open `result` to
/// the difference modulo p of what they open for `x` and for `y`.
pub proof fn lemma_open_sub(ps: Seq<PartyView>, result: Seq<char>, x: Seq<char>, y: Seq<char>, t: nat)
    ensures
        open_spec(sub_all(ps, result, x, y), result, t) == (open_spec(ps, x, t) - open_spec(ps, y, t))
            % p(),
{
    let qs = sub_all(ps, result, x, y);
    let s1 = opened_shares(ps, x, t);
    let s2 = opened_shares(ps, y, t);
    let s3 = opened_shares(qs, result, t);
    lemma_opened_same_xs(ps, ps, x, y, t);
    lemma_opened_same_xs(ps, qs, x, result, t);
    assert forall|j: int| 0 <= j < s1.len() implies cong(
        (#[trigger] s3[j]).y as int,
        1 * s1[j].y + (-1) * s2[j].y,
    ) by {
        lemma_mod_twice(s1[j].y - s2[j].y, p());
    }
    lemma_reconstruct_linear(s1, s2, s3, 1, -1);
}

/// **Scalar multiplication is homomorphic**: after `scalar_mul`, the parties
/// open `result` to `c` times what they open for `x`, modulo p.
pub proof fn lemma_open_scalar(ps: Seq<PartyView>, result: Seq<char>, x: Seq<char>, c: i128, t: nat)
    ensures
        open_spec(scalar_all(ps, result, x, c), result, t) == (c * open_spec(ps, x, t)) % p(),
{
    let qs = scalar_all(ps, result, x, c);
    let s1 = opened_shares(ps, x, t);
    let s3 = opened_shares(qs, result, t);
    lemma_opened_same_xs(ps, ps, x, x, t);
    lemma_opened_same_xs(ps, qs, x, result, t);
    assert forall|j: int| 0 <= j < s1.len() implies cong(
        (#[trigger] s3[j]).y as int,
        c * s1[j].y + 0 * s1[j].y,
    ) by {
        lemma_mod_twice(c * s1[j].y, p());
    }
    lemma_reconstruct_linear(s1, s1, s3, c as int, 0);
}

/// Opening a label reads only the ids and that label's shares.
proof fn lemma_open_frame(ps: Seq<PartyView>, qs: Seq<PartyView>, l: Seq<char>, t: nat)
    requires
        ps.len() == qs.len(),
        forall|i: int|
            0 <= i < ps.len() ==> (#[trigger] ps[i]).id == qs[i].id && ps[i].shares[l]
                == qs[i].shares[l],
    ensures
        open_spec(ps, l, t) == open_spec(qs, l, t),
{
    assert(opened_shares(ps, l, t) =~= opened_shares(qs, l, t));
}

/// The first `t` parties are numbered `1..=t`.
pub open spec fn numbered(ps: Seq<PartyView>, t: nat) -> bool {
    forall|i: int| 0 <= i < t && i < ps.len() ==> (#[trigger] ps[i]).id == i + 1
}

/// Parties numbered `1..=t`, with `t < p`, sit at points distinct modulo p.
proof fn lemma_numbered_distinct(ps: Seq<PartyView>, label: Seq<char>, t: nat)
    requires
        t <= ps.len(),
        t < p(),
        numbered(ps, t),
    ensures
        distinct_points(opened_shares(ps, label, t)),
{
    let s = opened_shares(ps, label, t);
    assert forall|j: int, m: int|
        0 <= j < s.len() && 0 <= m < s.len() && j != m implies (#[trigger] s[j]).x as int % p() != (
        #[trigger] s[m]).x as int % p() by {
        assert(ps[j].id == j + 1 && ps[m].id == m + 1);
        lemma_small_mod((j + 1) as nat, p() as nat);
        lemma_small_mod((m + 1) as nat, p() as nat);
    }
}

/// **Sharing then opening gives the secret**: when a secret is shared with a
/// polynomial of at most `t` coefficients among parties numbered from 1, the
/// first `t` parties open it to the secret modulo p.
pub proof fn lemma_open_input(ps: Seq<PartyView>, label: Seq<char>, c: Seq<i128>, t: nat)
    requires
        1 <= c.len() <= t <= ps.len(),
        t < p(),
        numbered(ps, t),
    ensures
        open_spec(input_all(ps, label, c), label, t) == (c[0] as int) % p(),
{
    let qs = input_all(ps, label, c);
    let s = opened_shares(qs, label, t);
    lemma_numbered_distinct(qs, label, t);
    assert forall|j: int| 0 <= j < s.len() implies (#[trigger] s[j]).y == poly_eval(c, s[j].x as int)
        % p() by {
        assert(ps[j].id == j + 1);
    }
    lemma_reconstruct_correct(s, c);
}

/// The integer identity behind Beaver multiplication:
/// `(x−a)·b + (y−b)·a + a·b + (x−a)·(y−b) = x·y`.
proof fn lemma_beaver_identity(x: int, y: int, a: int, b: int)
    ensures
        (x - a) * b + (y - b) * a + a * b + (x - a) * (y - b) == x * y,
{
    assert((x - a) * b + (y - b) * a + a * b + (x - a) * (y - b) == x * y) by (nonlinear_arith);
}

/// A party's Beaver share is congruent to `ε·b + δ·a + c + ε·δ`.
proof fn lemma_beaver_share_cong(e: int, d: int, a: i128, b: i128, c: i128)
    ensures
        cong(beaver_share(e, d, a, b, c), e * b + d * a + c + e * d),
{
    let u = (e * b) % p() + (d * a) % p();
    lemma_cong_mod(e * b);
    lemma_cong_mod(d * a);
    lemma_cong_add((e * b) % p(), e * b, (d * a) % p(), d * a);
    lemma_cong_mod(u);
    lemma_cong_add(u % p(), e * b + d * a, c as int, c as int);
    let w = u % p() + c;
    lemma_cong_mod(w);
    lemma_cong_mod(e * d);
    lemma_cong_add(w % p(), e * b + d * a + c, (e * d) % p(), e * d);
    lemma_cong_mod(w % p() + (e * d) % p());
}

/// **The Lagrange weights sum to 1**: shares that all hold 1, at points
/// distinct modulo p, reconstruct to 1.
pub proof fn lemma_weights_sum_one(s: Seq<Share>)
    requires
        1 <= s.len(),
        distinct_points(s),
        forall|j: int| 0 <= j < s.len() ==> (#[trigger] s[j]).y == 1,
    ensures
        reconstruct_spec(s) == 1,
{
    let one = seq![1i128];
    assert(one.drop_first() =~= Seq::<i128>::empty());
    lemma_small_mod(1, p() as nat);
    assert forall|j: int| 0 <= j < s.len() implies (#[trigger] s[j]).y == poly_eval(
        one,
        s[j].x as int,
    ) % p() by {
        assert(poly_eval(one.drop_first(), s[j].x as int) == 0);
        assert(poly_eval(one, s[j].x as int) == 1 + s[j].x * 0);
    }
    lemma_reconstruct_correct(s, one);
}

/// The arithmetic that makes Beaver multiplication correct, modulo p.
proof fn lemma_beaver_algebra(xv: int, yv: int, av: int, bv: int, cv: int, e: int, d: int)
    requires
        e == (xv - av) % p(),
        d == (yv - bv) % p(),
        cv == (av * bv) % p(),
    ensures
        ((((e * bv + d * av) % p()) + cv) % p() + e * d) % p() == (xv * yv) % p(),
{
    let ru = (e * bv + d * av) % p();
    let rw = (ru + cv) % p();
    lemma_cong_mod(e * bv + d * av);
    lemma_cong_add(ru, e * bv + d * av, cv, cv);
    lemma_cong_mod(ru + cv);
    lemma_cong_add(rw, e * bv + d * av + cv, e * d, e * d);
    lemma_mul_mod_noop_left(xv - av, bv, p());
    lemma_mul_mod_noop_left(yv - bv, av, p());
    lemma_mul_mod_noop(xv - av, yv - bv, p());
    lemma_mod_twice(av * bv, p());
    lemma_cong_add(e * bv, (xv - av) * bv, d * av, (yv - bv) * av);
    lemma_cong_add(e * bv + d * av, (xv - av) * bv + (yv - bv) * av, cv, av * bv);
    lemma_cong_add(
        e * bv + d * av + cv,
        (xv - av) * bv + (yv - bv) * av + av * bv,
        e * d,
        (xv - av) * (yv - bv),
    );
    lemma_beaver_identity(xv, yv, av, bv);
}

/// The shares `k1·y1 + k2·y2 mod p` at the points of `s1`.
pub open spec fn lin_shares(s1: Seq<Share>, s2: Seq<Share>, k1: int, k2: int) -> Seq<Share> {
    Seq::new(s1.len(), |j: int| Share { x: s1[j].x, y: ((k1 * s1[j].y + k2 * s2[j].y) % p()) as i128 })
}

proof fn lemma_lin_shares(s1: Seq<Share>, s2: Seq<Share>, k1: int, k2: int)
    requires
        same_xs(s1, s2),
    ensures
        same_xs(s1, lin_shares(s1, s2, k1, k2)),
        reconstruct_spec(lin_shares(s1, s2, k1, k2)) == (k1 * reconstruct_spec(s1) + k2
            * reconstruct_spec(s2)) % p(),
{
    let s3 = lin_shares(s1, s2, k1, k2);
    assert forall|j: int| 0 <= j < s1.len() implies cong(
        (#[trigger] s3[j]).y as int,
        k1 * s1[j].y + k2 * s2[j].y,
    ) by {
        lemma_cong_mod(k1 * s1[j].y + k2 * s2[j].y);
    }
    lemma_reconstruct_linear(s1, s2, s3, k1, k2);
}

/// The shares of the product are, share by share, congruent to
/// `1·w + ε·δ·1` where `w` are the shares of `ε·b + δ·a + c`.
#[verifier::rlimit(40)]
#[verifier::spinoff_prover]
proof fn lemma_mul_shares_cong(
    ps: Seq<PartyView>,
    result: Seq<char>,
    x: Seq<char>,
    y: Seq<char>,
    a: Seq<char>,
    b: Seq<char>,
    c: Seq<char>,
    t: nat,
    sw: Seq<Share>,
    so: Seq<Share>,
)
    requires
        ({
            let s2 = masked(ps, result, x, y, a, b);
            let e = open_spec(s2, eps_label(result), t);
            let d = open_spec(s2, del_label(result), t);
            sw == lin_shares(
                lin_shares(opened_shares(s2, b, t), opened_shares(s2, a, t), e, d),
                opened_shares(s2, c, t),
                1,
                1,
            )
        }),
        so.len() == sw.len(),
        forall|j: int| 0 <= j < so.len() ==> (#[trigger] so[j]).y == 1,
    ensures
        ({
            let s2 = masked(ps, result, x, y, a, b);
            let e = open_spec(s2, eps_label(result), t);
            let d = open_spec(s2, del_label(result), t);
            let sz = opened_shares(mul_all(ps, result, x, y, a, b, c, t), result, t);
            forall|j: int|
                0 <= j < sz.len() ==> cong(
                    (#[trigger] sz[j]).y as int,
                    1 * sw[j].y + (e * d) * so[j].y,
                )
        }),
{
    let s2 = masked(ps, result, x, y, a, b);
    let e = open_spec(s2, eps_label(result), t);
    let d = open_spec(s2, del_label(result), t);
    let sz = opened_shares(mul_all(ps, result, x, y, a, b, c, t), result, t);
    assert forall|j: int| 0 <= j < sz.len() implies cong(
        (#[trigger] sz[j]).y as int,
        1 * sw[j].y + (e * d) * so[j].y,
    ) by {
        let (aj, bj, cj) = (s2[j].shares[a], s2[j].shares[b], s2[j].shares[c]);
        lemma_beaver_share_cong(e, d, aj, bj, cj);
        let u = e * bj + d * aj;
        lemma_cong_mod(u);
        lemma_cong_mod(u % p() + cj);
        lemma_cong_add(u % p() + cj, u + cj, e * d, e * d);
        lemma_cong_add((u % p() + cj) % p(), u % p() + cj, e * d, e * d);
    }
}

/// The shares of the product reconstruct to `ε·b + δ·a + c + ε·δ` in GF(p),
/// with `a`, `b`, `c` opened after masking.
#[verifier::rlimit(40)]
#[verifier::spinoff_prover]
proof fn lemma_mul_reconstruct(
    ps: Seq<PartyView>,
    result: Seq<char>,
    x: Seq<char>,
    y: Seq<char>,
    a: Seq<char>,
    b: Seq<char>,
    c: Seq<char>,
    t: nat,
)
    requires
        1 <= t <= ps.len(),
        distinct_points(opened_shares(ps, x, t)),
    ensures
        ({
            let s2 = masked(ps, result, x, y, a, b);
            let e = open_spec(s2, eps_label(result), t);
            let d = open_spec(s2, del_label(result), t);
            open_spec(mul_all(ps, result, x, y, a, b, c, t), result, t) == ((((e * open_spec(
                s2,
                b,
                t,
            ) + d * open_spec(s2, a, t)) % p()) + open_spec(s2, c, t)) % p() + e * d) % p()
        }),
{
    let s2 = masked(ps, result, x, y, a, b);
    let e = open_spec(s2, eps_label(result), t);
    let d = open_spec(s2, del_label(result), t);
    let qs = mul_all(ps, result, x, y, a, b, c, t);
    let sa = opened_shares(s2, a, t);
    let sb = opened_shares(s2, b, t);
    let sc = opened_shares(s2, c, t);
    let sz = opened_shares(qs, result, t);
    lemma_opened_same_xs(s2, s2, b, a, t);
    lemma_opened_same_xs(s2, s2, b, c, t);
    lemma_opened_same_xs(s2, qs, b, result, t);
    lemma_opened_same_xs(s2, ps, b, x, t);
    let su = lin_shares(sb, sa, e, d);
    lemma_lin_shares(sb, sa, e, d);
    let sw = lin_shares(su, sc, 1, 1);
    lemma_lin_shares(su, sc, 1, 1);
    let so = Seq::new(sw.len(), |j: int| Share { x: sw[j].x, y: 1i128 });
    let sx = opened_shares(ps, x, t);
    assert forall|j: int, m: int|
        0 <= j < so.len() && 0 <= m < so.len() && j != m implies (#[trigger] so[j]).x as int % p() != (
        #[trigger] so[m]).x as int % p() by {
        assert(so[j].x == sx[j].x && so[m].x == sx[m].x);
    }
    lemma_weights_sum_one(so);
    lemma_mul_shares_cong(ps, result, x, y, a, b, c, t, sw, so);
    assert(same_xs(sw, so));
    assert(same_xs(sw, sz));
    lemma_reconstruct_linear(sw, so, sz, 1, e * d);
}

/// **Beaver multiplication opens to the product**: when the triple's `c`
/// opens to the product of what `a` and `b` open to, and the two internal
/// labels of the multiplication name none of the labels read after they are
/// written, the first `t ≥ 1` parties open `result` to the product modulo p
/// of what they open for `x` and `y`.
#[verifier::rlimit(40)]
#[verifier::spinoff_prover]
pub proof fn lemma_open_mul(
    ps: Seq<PartyView>,
    result: Seq<char>,
    x: Seq<char>,
    y: Seq<char>,
    a: Seq<char>,
    b: Seq<char>,
    c: Seq<char>,
    t: nat,
)
    requires
        1 <= t <= ps.len(),
        distinct_points(opened_shares(ps, x, t)),
        eps_label(result) != y && eps_label(result) != a && eps_label(result) != b
            && eps_label(result) != c,
        del_label(result) != a && del_label(result) != b && del_label(result) != c,
        open_spec(ps, c, t) == (open_spec(ps, a, t) * open_spec(ps, b, t)) % p(),
    ensures
        open_spec(mul_all(ps, result, x, y, a, b, c, t), result, t) == (open_spec(ps, x, t)
            * open_spec(ps, y, t)) % p(),
{
    let el = eps_label(result);
    let dl = del_label(result);
    reveal_strlit("__eps_");
    reveal_strlit("__del_");
    assert(el[3] != dl[3]);
    let s1 = sub_all(ps, el, x, a);
    let s2 = masked(ps, result, x, y, a, b);
    lemma_open_sub(ps, el, x, a, t);
    lemma_open_frame(s2, s1, el, t);
    lemma_open_frame(s1, ps, y, t);
    lemma_open_frame(s1, ps, b, t);
    lemma_open_sub(s1, dl, y, b, t);
    lemma_open_frame(s2, ps, a, t);
    lemma_open_frame(s2, ps, b, t);
    lemma_open_frame(s2, ps, c, t);
    lemma_mul_reconstruct(ps, result, x, y, a, b, c, t);
    lemma_beaver_algebra(
        open_spec(ps, x, t),
        open_spec(ps, y, t),
        open_spec(ps, a, t),
        open_spec(ps, b, t),
        open_spec(ps, c, t),
        open_spec(s2, el, t),
        open_spec(s2, dl, t),
    );
}

/// **A generated Beaver triple is valid**: after sharing `a`, `b` and
/// `a·b mod p` under three different labels among parties numbered from 1,
/// the first `t` parties open the third label to the product of what they
/// open for the first two, modulo p.
pub proof fn lemma_open_triple(
    ps: Seq<PartyView>,
    la: Seq<char>,
    lb: Seq<char>,
    lc: Seq<char>,
    ca: Seq<i128>,
    cb: Seq<i128>,
    cc: Seq<i128>,
    t: nat,
)
    requires
        1 <= ca.len() <= t,
        1 <= cb.len() <= t,
        1 <= cc.len() <= t,
        t <= ps.len(),
        cc[0] == (ca[0] * cb[0]) % p(),
        la != lb && la != lc && lb != lc,
        t < p(),
        numbered(ps, t),
    ensures
        ({
            let qs = input_all(input_all(input_all(ps, la, ca), lb, cb), lc, cc);
            open_spec(qs, lc, t) == (open_spec(qs, la, t) * open_spec(qs, lb, t)) % p()
        }),
{
    let v1 = input_all(ps, la, ca);
    let v2 = input_all(v1, lb, cb);
    let qs = input_all(v2, lc, cc);
    lemma_open_input(ps, la, ca, t);
    lemma_open_input(v1, lb, cb, t);
    lemma_open_input(v2, lc, cc, t);
    lemma_open_frame(qs, v1, la, t);
    lemma_open_frame(qs, v2, lb, t);
    lemma_mul_mod_noop(ca[0] as int, cb[0] as int, p());
    lemma_mod_twice(ca[0] * cb[0], p());
}

} // verus!
