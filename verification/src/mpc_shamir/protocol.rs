//! MPC protocols on Shamir-shared values: sharing, local linear operations,
//! opening, and multiplication with Beaver triples.
//!
//! Addition of degree-(k−1) polynomials gives another degree-(k−1) polynomial,
//! so additions and scalar multiplications are local to each party; a
//! multiplication needs a pre-shared Beaver triple and two openings.
use crate::mpc_shamir::field::{fits_i128, p};
use crate::mpc_shamir::party::{Party, PartyView};
use crate::mpc_shamir::shamir::{
    lagrange_basis,
    poly_eval,
    reconstruct_spec,
    reconstructible,
    sharing_coeffs,
    Share,
};
use vstd::prelude::*;

verus! {

/// The views of a sequence of parties.
pub open spec fn views(ps: Seq<Party>) -> Seq<PartyView> {
    ps.map_values(|q: Party| q@)
}

/// A party with the share `label ↦ y` stored.
pub open spec fn with_share(v: PartyView, label: Seq<char>, y: i128) -> PartyView {
    PartyView { id: v.id, name: v.name, shares: v.shares.insert(label, y) }
}

/// Every party holds a share under `label`.
pub open spec fn all_hold(ps: Seq<PartyView>, label: Seq<char>) -> bool {
    forall|i: int| 0 <= i < ps.len() ==> (#[trigger] ps[i]).shares.contains_key(label)
}

/// Party `i` receives the share `P(i + 1) mod p` of the polynomial with coefficients `c`.
pub open spec fn input_all(ps: Seq<PartyView>, label: Seq<char>, c: Seq<i128>) -> Seq<PartyView> {
    Seq::new(ps.len(), |i: int| with_share(ps[i], label, (poly_eval(c, i + 1) % p()) as i128))
}

/// Each party stores `[x] + [y] mod p` under `result`.
pub open spec fn add_all(ps: Seq<PartyView>, result: Seq<char>, x: Seq<char>, y: Seq<char>) -> Seq<
    PartyView,
> {
    Seq::new(
        ps.len(),
        |i: int| with_share(ps[i], result, ((ps[i].shares[x] + ps[i].shares[y]) % p()) as i128),
    )
}

/// Each party stores `[x] − [y] mod p` under `result`.
pub open spec fn sub_all(ps: Seq<PartyView>, result: Seq<char>, x: Seq<char>, y: Seq<char>) -> Seq<
    PartyView,
> {
    Seq::new(
        ps.len(),
        |i: int| with_share(ps[i], result, ((ps[i].shares[x] - ps[i].shares[y]) % p()) as i128),
    )
}

/// Each party stores `c · [x] mod p` under `result`.
pub open spec fn scalar_all(ps: Seq<PartyView>, result: Seq<char>, x: Seq<char>, c: i128) -> Seq<
    PartyView,
> {
    Seq::new(ps.len(), |i: int| with_share(ps[i], result, ((c * ps[i].shares[x]) % p()) as i128))
}

/// The shares `(id, [label])` of the first `t` parties (all of them if fewer).
pub open spec fn opened_shares(ps: Seq<PartyView>, label: Seq<char>, t: nat) -> Seq<Share> {
    Seq::new(
        if t < ps.len() {
            t
        } else {
            ps.len()
        },
        |i: int| Share { x: ps[i].id as i128, y: ps[i].shares[label] },
    )
}

/// The value that the first `t` parties reconstruct for `label`.
pub open spec fn open_spec(ps: Seq<PartyView>, label: Seq<char>, t: nat) -> int {
    reconstruct_spec(opened_shares(ps, label, t))
}

/// The first `t` parties hold `label` and can reconstruct it within `i128`.
pub open spec fn can_open(ps: Seq<PartyView>, label: Seq<char>, t: nat) -> bool {
    &&& forall|i: int| 0 <= i < t && i < ps.len() ==> (#[trigger] ps[i]).shares.contains_key(label)
    &&& reconstructible(opened_shares(ps, label, t))
}

/// Distribute a secret as Shamir shares to all parties.
///
/// In a real deployment the secret holder would:
///   1. Run `shamir::split` locally.
///   2. Send share i to party i over an encrypted private channel.
///
/// We simulate that by calling `party.receive_share` for each party.
pub fn input_secret(parties: &mut Vec<Party>, label: &str, secret: i128, threshold: usize)
    requires
        1 <= threshold <= old(parties)@.len(),
        secret < p(),
    ensures
        final(parties)@.len() == old(parties)@.len(),
        exists|c: Seq<i128>|
            sharing_coeffs(c, secret, threshold as nat) && views(final(parties)@) == input_all(
                views(old(parties)@),
                label@,
                c,
            ),
{
    let ghost old_v = views(parties@);
    let shares = crate::mpc_shamir::shamir::split(secret, parties.len(), threshold);
    let ghost c = choose|c: Seq<i128>|
        sharing_coeffs(c, secret, threshold as nat) && shares@
            == crate::mpc_shamir::shamir::shares_of(c, old_v.len());
    let ghost target = input_all(old_v, label@, c);
    let mut i: usize = 0;
    while i < parties.len()
        invariant
            parties@.len() == old_v.len(),
            shares@.len() == old_v.len(),
            shares@ == crate::mpc_shamir::shamir::shares_of(c, old_v.len()),
            target == input_all(old_v, label@, c),
            i <= old_v.len(),
            forall|k: int| 0 <= k < i ==> (#[trigger] parties@[k])@ == target[k],
            forall|k: int| i <= k < old_v.len() ==> (#[trigger] parties@[k])@ == old_v[k],
        decreases old_v.len() - i,
    {
        let y = shares[i].y;
        parties[i].receive_share(label, y);
        i = i + 1;
    }
    assert(views(parties@) =~= target);
}

/// SECURE ADDITION  —  compute [z] = [x] + [y]  with NO communication.
///
/// Each party independently adds their two share values:
///   [z]ᵢ  =  [x]ᵢ + [y]ᵢ  (mod p)
pub fn add(parties: &mut Vec<Party>, result: &str, x: &str, y: &str)
    requires
        all_hold(views(old(parties)@), x@),
        all_hold(views(old(parties)@), y@),
        forall|i: int|
            0 <= i < old(parties)@.len() ==> fits_i128(
                (#[trigger] old(parties)@[i])@.shares[x@] + old(parties)@[i]@.shares[y@],
            ),
    ensures
        views(final(parties)@) == add_all(views(old(parties)@), result@, x@, y@),
{
    let ghost old_v = views(parties@);
    let ghost target = add_all(old_v, result@, x@, y@);
    let mut i: usize = 0;
    while i < parties.len()
        invariant
            parties@.len() == old_v.len(),
            old_v == views(old(parties)@),
            target == add_all(old_v, result@, x@, y@),
            all_hold(old_v, x@),
            all_hold(old_v, y@),
            forall|k: int|
                0 <= k < old_v.len() ==> fits_i128(
                    (#[trigger] old_v[k]).shares[x@] + old_v[k].shares[y@],
                ),
            i <= old_v.len(),
            forall|k: int| 0 <= k < i ==> (#[trigger] parties@[k])@ == target[k],
            forall|k: int| i <= k < old_v.len() ==> (#[trigger] parties@[k])@ == old_v[k],
        decreases old_v.len() - i,
    {
        assert(parties@[i as int]@ == old_v[i as int]);
        let a = parties[i].get_value(x);
        let b = parties[i].get_value(y);
        let z = crate::mpc_shamir::field::add(a, b);
        parties[i].receive_share(result, z);
        i = i + 1;
    }
    assert(views(parties@) =~= target);
}

/// SECURE SUBTRACTION  —  compute [z] = [x] − [y]  with NO communication.
pub fn sub(parties: &mut Vec<Party>, result: &str, x: &str, y: &str)
    requires
        all_hold(views(old(parties)@), x@),
        all_hold(views(old(parties)@), y@),
        forall|i: int|
            0 <= i < old(parties)@.len() ==> fits_i128(
                (#[trigger] old(parties)@[i])@.shares[x@] - old(parties)@[i]@.shares[y@],
            ),
    ensures
        views(final(parties)@) == sub_all(views(old(parties)@), result@, x@, y@),
{
    let ghost old_v = views(parties@);
    let ghost target = sub_all(old_v, result@, x@, y@);
    let mut i: usize = 0;
    while i < parties.len()
        invariant
            parties@.len() == old_v.len(),
            old_v == views(old(parties)@),
            target == sub_all(old_v, result@, x@, y@),
            all_hold(old_v, x@),
            all_hold(old_v, y@),
            forall|k: int|
                0 <= k < old_v.len() ==> fits_i128(
                    (#[trigger] old_v[k]).shares[x@] - old_v[k].shares[y@],
                ),
            i <= old_v.len(),
            forall|k: int| 0 <= k < i ==> (#[trigger] parties@[k])@ == target[k],
            forall|k: int| i <= k < old_v.len() ==> (#[trigger] parties@[k])@ == old_v[k],
        decreases old_v.len() - i,
    {
        assert(parties@[i as int]@ == old_v[i as int]);
        let a = parties[i].get_value(x);
        let b = parties[i].get_value(y);
        let z = crate::mpc_shamir::field::sub(a, b);
        parties[i].receive_share(result, z);
        i = i + 1;
    }
    assert(views(parties@) =~= target);
}

/// SECURE SCALAR MULTIPLY  —  compute [z] = c · [x]  with NO communication.
///
/// Each party just multiplies their share by the public constant c:
///   [z]ᵢ  =  c · [x]ᵢ  (mod p)
pub fn scalar_mul(parties: &mut Vec<Party>, result: &str, x: &str, c: i128)
    requires
        all_hold(views(old(parties)@), x@),
        forall|i: int|
            0 <= i < old(parties)@.len() ==> fits_i128(c * (#[trigger] old(parties)@[i])@.shares[x@]),
    ensures
        views(final(parties)@) == scalar_all(views(old(parties)@), result@, x@, c),
{
    let ghost old_v = views(parties@);
    let ghost target = scalar_all(old_v, result@, x@, c);
    let mut i: usize = 0;
    while i < parties.len()
        invariant
            parties@.len() == old_v.len(),
            old_v == views(old(parties)@),
            target == scalar_all(old_v, result@, x@, c),
            all_hold(old_v, x@),
            forall|k: int| 0 <= k < old_v.len() ==> fits_i128(c * (#[trigger] old_v[k]).shares[x@]),
            i <= old_v.len(),
            forall|k: int| 0 <= k < i ==> (#[trigger] parties@[k])@ == target[k],
            forall|k: int| i <= k < old_v.len() ==> (#[trigger] parties@[k])@ == old_v[k],
        decreases old_v.len() - i,
    {
        assert(parties@[i as int]@ == old_v[i as int]);
        let v = parties[i].get_value(x);
        let z = crate::mpc_shamir::field::mul(c, v);
        parties[i].receive_share(result, z);
        i = i + 1;
    }
    assert(views(parties@) =~= target);
}

/// OPEN  —  reconstruct the plaintext value of a labeled shared secret.
///
/// In a real protocol, each party broadcasts their share; every party
/// then runs Lagrange interpolation independently.  We simulate that by
/// collecting the shares of the first `threshold` parties.
pub fn open(parties: &[Party], label: &str, threshold: usize) -> (r: i128)
    requires
        can_open(views(parties@), label@, threshold as nat),
    ensures
        r == open_spec(views(parties@), label@, threshold as nat),
        0 <= r < p(),
{
    let ghost v = views(parties@);
    let ghost target = opened_shares(v, label@, threshold as nat);
    let mut shares: Vec<Share> = Vec::new();
    let mut i: usize = 0;
    while i < parties.len() && i < threshold
        invariant
            v == views(parties@),
            target == opened_shares(v, label@, threshold as nat),
            can_open(v, label@, threshold as nat),
            i <= parties@.len(),
            i <= threshold,
            shares@ == target.subrange(0, i as int),
        decreases parties@.len() - i,
    {
        assert(v[i as int] == parties@[i as int]@);
        shares.push(parties[i].get_share(label));
        i = i + 1;
        assert(shares@ =~= target.subrange(0, i as int));
    }
    assert(shares@ =~= target);
    crate::mpc_shamir::shamir::reconstruct(shares.as_slice())
}

/// Handle for a pre-computed Beaver triple stored in party memory.
pub struct BeaverTriple {
    pub a_label: String,
    pub b_label: String,
    pub c_label: String,
}

/// Generate and distribute a fresh Beaver triple to all parties.
/// Call this ONCE in the preprocessing phase, before `mul`.
///
/// `a` and `b` are drawn at random from `[1, p)`; `c = a · b mod p`.
pub fn generate_beaver_triple(
    parties: &mut Vec<Party>,
    a_label: &str,
    b_label: &str,
    c_label: &str,
    threshold: usize,
) -> (triple: BeaverTriple)
    requires
        1 <= threshold <= old(parties)@.len(),
    ensures
        triple.a_label@ == a_label@,
        triple.b_label@ == b_label@,
        triple.c_label@ == c_label@,
        exists|a: i128, b: i128, ca: Seq<i128>, cb: Seq<i128>, cc: Seq<i128>|
            #![trigger sharing_coeffs(ca, a, threshold as nat), sharing_coeffs(cb, b, threshold as nat), input_all(input_all(input_all(views(old(parties)@), a_label@, ca), b_label@, cb), c_label@, cc)]
            {
                &&& 1 <= a < p()
                &&& 1 <= b < p()
                &&& sharing_coeffs(ca, a, threshold as nat)
                &&& sharing_coeffs(cb, b, threshold as nat)
                &&& sharing_coeffs(cc, ((a * b) % p()) as i128, threshold as nat)
                &&& views(final(parties)@) == input_all(
                    input_all(input_all(views(old(parties)@), a_label@, ca), b_label@, cb),
                    c_label@,
                    cc,
                )
            },
{
    let ghost v0 = views(parties@);
    let mut rng = crate::rng::thread_rng();
    let a = crate::rng::gen_range_i128(&mut rng, 1, crate::mpc_shamir::field::PRIME);
    let b = crate::rng::gen_range_i128(&mut rng, 1, crate::mpc_shamir::field::PRIME);
    proof {
        assert(a * b <= p() * p()) by (nonlinear_arith)
            requires
                1 <= a < p(),
                1 <= b < p(),
        ;
        assert(a * b >= 0) by (nonlinear_arith)
            requires
                1 <= a,
                1 <= b,
        ;
    }
    let c = crate::mpc_shamir::field::mul(a, b);  // c = a · b

    // Distribute shares of a, b, c  (the actual values stay secret)
    input_secret(parties, a_label, a, threshold);
    let ghost v1 = views(parties@);
    input_secret(parties, b_label, b, threshold);
    let ghost v2 = views(parties@);
    input_secret(parties, c_label, c, threshold);
    let ghost ca = choose|ca: Seq<i128>|
        sharing_coeffs(ca, a, threshold as nat) && v1 == input_all(v0, a_label@, ca);
    let ghost cb = choose|cb: Seq<i128>|
        sharing_coeffs(cb, b, threshold as nat) && v2 == input_all(v1, b_label@, cb);
    let ghost cc = choose|cc: Seq<i128>|
        sharing_coeffs(cc, c, threshold as nat) && views(parties@) == input_all(v2, c_label@, cc);
    BeaverTriple {
        a_label: a_label.to_owned(),
        b_label: b_label.to_owned(),
        c_label: c_label.to_owned(),
    }
}

/// The internal label of the masked difference `[x] − [a]` of a multiplication.
pub open spec fn eps_label(result: Seq<char>) -> Seq<char> {
    "__eps_"@ + result
}

/// The internal label of the masked difference `[y] − [b]` of a multiplication.
pub open spec fn del_label(result: Seq<char>) -> Seq<char> {
    "__del_"@ + result
}

/// A party's share of the product: `ε·[b] + δ·[a] + [c] + ε·δ  (mod p)`.
pub open spec fn beaver_share(e: int, d: int, a: i128, b: i128, c: i128) -> int {
    (((((e * b) % p() + (d * a) % p()) % p() + c) % p()) + (e * d) % p()) % p()
}

/// The parties after the first local round: `[ε] = [x] − [a]`, `[δ] = [y] − [b]`.
pub open spec fn masked(
    ps: Seq<PartyView>,
    result: Seq<char>,
    x: Seq<char>,
    y: Seq<char>,
    a: Seq<char>,
    b: Seq<char>,
) -> Seq<PartyView> {
    sub_all(sub_all(ps, eps_label(result), x, a), del_label(result), y, b)
}

/// The parties after a Beaver multiplication storing `[x·y]` under `result`.
pub open spec fn mul_all(
    ps: Seq<PartyView>,
    result: Seq<char>,
    x: Seq<char>,
    y: Seq<char>,
    a: Seq<char>,
    b: Seq<char>,
    c: Seq<char>,
    t: nat,
) -> Seq<PartyView> {
    let s2 = masked(ps, result, x, y, a, b);
    let e = open_spec(s2, eps_label(result), t);
    let d = open_spec(s2, del_label(result), t);
    Seq::new(
        s2.len(),
        |i: int|
            with_share(
                s2[i],
                result,
                beaver_share(e, d, s2[i].shares[a], s2[i].shares[b], s2[i].shares[c]) as i128,
            ),
    )
}

/// The shares a Beaver multiplication reads are present and its arithmetic
/// stays within `i128`.
pub open spec fn mul_ok(
    ps: Seq<PartyView>,
    result: Seq<char>,
    x: Seq<char>,
    y: Seq<char>,
    a: Seq<char>,
    b: Seq<char>,
    c: Seq<char>,
    t: nat,
) -> bool {
    let s1 = sub_all(ps, eps_label(result), x, a);
    let s2 = masked(ps, result, x, y, a, b);
    let e = open_spec(s2, eps_label(result), t);
    let d = open_spec(s2, del_label(result), t);
    &&& all_hold(ps, x)
    &&& all_hold(ps, a)
    &&& forall|i: int| 0 <= i < ps.len() ==> fits_i128((#[trigger] ps[i]).shares[x] - ps[i].shares[a])
    &&& all_hold(s1, y)
    &&& all_hold(s1, b)
    &&& forall|i: int| 0 <= i < s1.len() ==> fits_i128((#[trigger] s1[i]).shares[y] - s1[i].shares[b])
    &&& can_open(s2, eps_label(result), t)
    &&& can_open(s2, del_label(result), t)
    &&& all_hold(s2, a)
    &&& all_hold(s2, b)
    &&& all_hold(s2, c)
    &&& forall|i: int|
        0 <= i < s2.len() ==> {
            &&& fits_i128(e * (#[trigger] s2[i]).shares[b])
            &&& fits_i128(d * s2[i].shares[a])
            &&& fits_i128(((e * s2[i].shares[b]) % p() + (d * s2[i].shares[a]) % p()) % p() + s2[i].shares[c])
        }
}

/// SECURE MULTIPLICATION  —  compute [z] = [x] · [y] using a Beaver triple.
///
/// Round 1 (local): [ε] = [x] − [a] and [δ] = [y] − [b]; both are opened.
/// Round 2 (local): [z]ᵢ = [c]ᵢ + ε·[b]ᵢ + δ·[a]ᵢ + ε·δ for EVERY party i, so that
/// reconstruction, whose Lagrange weights sum to 1, adds ε·δ exactly once.
pub fn mul(
    parties: &mut Vec<Party>,
    result_label: &str,
    x_label: &str,
    y_label: &str,
    triple: &BeaverTriple,
    threshold: usize,
)
    requires
        mul_ok(
            views(old(parties)@),
            result_label@,
            x_label@,
            y_label@,
            triple.a_label@,
            triple.b_label@,
            triple.c_label@,
            threshold as nat,
        ),
    ensures
        views(final(parties)@) == mul_all(
            views(old(parties)@),
            result_label@,
            x_label@,
            y_label@,
            triple.a_label@,
            triple.b_label@,
            triple.c_label@,
            threshold as nat,
        ),
{
    let ghost v0 = views(parties@);
    let ghost (a, b, c) = (triple.a_label@, triple.b_label@, triple.c_label@);
    // Internal labels for the masked differences (not exposed to caller)
    let mut eps = "__eps_".to_owned();
    eps.append(result_label);
    let mut del = "__del_".to_owned();
    del.append(result_label);

    // ── Round 1 (local): mask x and y ──────────────────────────
    assert forall|i: int| 0 <= i < parties@.len() implies fits_i128(
        (#[trigger] parties@[i])@.shares[x_label@] - parties@[i]@.shares[a],
    ) by {
        assert(v0[i] == parties@[i]@);
    }
    self::sub(parties, eps.as_str(), x_label, triple.a_label.as_str());
    let ghost s1 = views(parties@);
    assert forall|i: int| 0 <= i < parties@.len() implies fits_i128(
        (#[trigger] parties@[i])@.shares[y_label@] - parties@[i]@.shares[b],
    ) by {
        assert(s1[i] == parties@[i]@);
    }
    self::sub(parties, del.as_str(), y_label, triple.b_label.as_str());
    let ghost s2 = views(parties@);
    assert(s2 == masked(v0, result_label@, x_label@, y_label@, a, b));

    // ── Broadcast: reveal ε and δ  (COMMUNICATION) ─────────────
    let epsilon = open(parties.as_slice(), eps.as_str(), threshold);
    let delta = open(parties.as_slice(), del.as_str(), threshold);

    // ── Round 2 (local): compute share of z ────────────────────
    let ghost target = mul_all(v0, result_label@, x_label@, y_label@, a, b, c, threshold as nat);
    let mut i: usize = 0;
    while i < parties.len()
        invariant
            parties@.len() == s2.len(),
            s2 == masked(v0, result_label@, x_label@, y_label@, a, b),
            mul_ok(v0, result_label@, x_label@, y_label@, a, b, c, threshold as nat),
            target == mul_all(v0, result_label@, x_label@, y_label@, a, b, c, threshold as nat),
            epsilon == open_spec(s2, eps_label(result_label@), threshold as nat),
            delta == open_spec(s2, del_label(result_label@), threshold as nat),
            0 <= epsilon < p(),
            0 <= delta < p(),
            a == triple.a_label@,
            b == triple.b_label@,
            c == triple.c_label@,
            i <= s2.len(),
            forall|k: int| 0 <= k < i ==> (#[trigger] parties@[k])@ == target[k],
            forall|k: int| i <= k < s2.len() ==> (#[trigger] parties@[k])@ == s2[k],
        decreases s2.len() - i,
    {
        assert(parties@[i as int]@ == s2[i as int]);
        assert(s2[i as int].shares.contains_key(a));
        let ai = parties[i].get_value(triple.a_label.as_str());
        let bi = parties[i].get_value(triple.b_label.as_str());
        let ci = parties[i].get_value(triple.c_label.as_str());
        proof {
            assert(epsilon * delta <= p() * p()) by (nonlinear_arith)
                requires
                    0 <= epsilon < p(),
                    0 <= delta < p(),
            ;
            assert(epsilon * delta >= 0) by (nonlinear_arith)
                requires
                    0 <= epsilon,
                    0 <= delta,
            ;
        }
        // ε·[b]_i + δ·[a]_i + [c]_i + ε·δ
        let eb = crate::mpc_shamir::field::mul(epsilon, bi);
        let da = crate::mpc_shamir::field::mul(delta, ai);
        let s = crate::mpc_shamir::field::add(eb, da);
        let sc = crate::mpc_shamir::field::add(s, ci);
        let ed = crate::mpc_shamir::field::mul(epsilon, delta);
        let zi = crate::mpc_shamir::field::add(sc, ed);  // ← added to ALL parties
        parties[i].receive_share(result_label, zi);
        i = i + 1;
    }
    assert(views(parties@) =~= target);
}

} // verus!
