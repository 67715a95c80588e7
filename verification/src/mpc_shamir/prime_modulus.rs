//! The field modulus p = 2^61 − 1 is prime: Lucas's test with the element 37
//! and the factorisation p − 1 = 2·3²·5²·7·11·13·31·41·61·151·331·1321.
//! The powers of 37 are computed from the power `37^15` down a tree of
//! exponents: each node's power raised to the product of the primes that its
//! sibling drops gives the power at the child.
use crate::mpc_shamir::field::{gcd, p};
use crate::mpc_shamir::primality::{is_prime, lemma_divisor_le, lemma_gcd_divides, lemma_lucas, prod};
use vstd::arithmetic::div_mod::*;
use vstd::arithmetic::power::*;
use vstd::prelude::*;

verus! {

// ── Powers modulo m, step by step ─────────────────────────────────────────────
/// `b^0 ≡ 1`.
proof fn lemma_power_start(b: int, m: int)
    requires
        m > 1,
    ensures
        pow(b, 0) % m == 1,
{
    lemma_pow0(b);
    lemma_small_mod(1, m as nat);
}

/// From `b^e ≡ v`: `b^(2e) ≡ v²`, with the quotient `q` of `v²` by m given.
proof fn lemma_square_step(b: int, e: nat, e2: nat, m: int, v: int, q: int, v2: int)
    requires
        m > 0,
        pow(b, e) % m == v,
        e2 == e + e,
        v * v == q * m + v2,
        0 <= v2 < m,
    ensures
        pow(b, e2) % m == v2,
{
    lemma_pow_adds(b, e, e);
    lemma_mul_mod_noop(pow(b, e), pow(b, e), m);
    lemma_fundamental_div_mod_converse_mod(v * v, m, q, v2);
}

/// From `b^e ≡ v`: `b^(2e+1) ≡ v²·b`, with the quotients `q1` of `v²` and `q2`
/// of `w·b` by m given.
proof fn lemma_square_mul_step(
    b: int,
    e: nat,
    e2: nat,
    m: int,
    v: int,
    q1: int,
    w: int,
    q2: int,
    v2: int,
)
    requires
        m > 0,
        pow(b, e) % m == v,
        e2 == e + e + 1,
        v * v == q1 * m + w,
        0 <= w < m,
        w * b == q2 * m + v2,
        0 <= v2 < m,
    ensures
        pow(b, e2) % m == v2,
{
    lemma_pow_adds(b, e, e);
    lemma_pow_adds(b, e + e, 1);
    lemma_pow1(b);
    lemma_mul_mod_noop(pow(b, e), pow(b, e), m);
    lemma_fundamental_div_mod_converse_mod(v * v, m, q1, w);
    lemma_mul_mod_noop_left(pow(b, e) * pow(b, e), b, m);
    lemma_fundamental_div_mod_converse_mod(w * b, m, q2, v2);
}

/// `(b^e1)^e2 = b^(e1·e2)`, modulo m.
proof fn lemma_power_compose(b: int, e1: nat, e2: nat, e: nat, m: int, v: int)
    requires
        m > 0,
        pow(b, e1) % m == v,
        e == e1 * e2,
    ensures
        pow(v, e2) % m == pow(b, e) % m,
{
    lemma_pow_mod_noop(pow(b, e1), e2, m);
    lemma_pow_multiplies(b, e1, e2);
}

// ── Small primes by trial division ────────────────────────────────────────────
/// No `d` in `[2, r]` divides `n`.
pub open spec fn no_divisor_upto(n: int, r: int) -> bool
    decreases r,
{
    if r < 2 {
        true
    } else {
        n % r != 0 && no_divisor_upto(n, r - 1)
    }
}

proof fn lemma_no_divisor(n: int, r: int, d: int)
    requires
        no_divisor_upto(n, r),
        2 <= d <= r,
    ensures
        n % d != 0,
    decreases r,
{
    if d < r {
        lemma_no_divisor(n, r - 1, d);
    }
}

/// A number below `(r + 1)²` with no divisor in `[2, r]` is prime.
proof fn lemma_trial_division(n: int, r: int)
    requires
        n > 1,
        r >= 1,
        no_divisor_upto(n, r),
        n < (r + 1) * (r + 1),
    ensures
        is_prime(n),
{
    assert forall|d: int| 1 < d < n implies #[trigger] (n % d) != 0 by {
        if n % d == 0 {
            lemma_fundamental_div_mod(n, d);
            let e = n / d;
            assert(n == d * e);
            assert(e > 1 && e < n) by (nonlinear_arith)
                requires
                    n == d * e,
                    1 < d < n,
            ;
            if d <= r {
                lemma_no_divisor(n, r, d);
            } else {
                lemma_mod_multiples_basic(d, e);
                assert(n == d * e);
                if e <= r {
                    lemma_no_divisor(n, r, e);
                } else {
                    assert(d * e >= (r + 1) * (r + 1)) by (nonlinear_arith)
                        requires
                            d >= r + 1,
                            e >= r + 1,
                            r >= 1,
                    ;
                }
            }
        }
    }
}

/// The prime factors of p − 1 are prime.
proof fn lemma_small_primes()
    ensures
        is_prime(2),
        is_prime(3),
        is_prime(5),
        is_prime(7),
        is_prime(11),
        is_prime(13),
        is_prime(31),
        is_prime(41),
        is_prime(61),
        is_prime(151),
        is_prime(331),
        is_prime(1321),
{
    reveal_with_fuel(no_divisor_upto, 40);
    lemma_trial_division(2, 1);
    lemma_trial_division(3, 1);
    lemma_trial_division(5, 2);
    lemma_trial_division(7, 2);
    lemma_trial_division(11, 3);
    lemma_trial_division(13, 3);
    lemma_trial_division(31, 5);
    lemma_trial_division(41, 6);
    lemma_trial_division(61, 7);
    lemma_trial_division(151, 12);
    lemma_trial_division(331, 18);
    assert(no_divisor_upto(1321, 2));
    assert(no_divisor_upto(1321, 3));
    assert(no_divisor_upto(1321, 4));
    assert(no_divisor_upto(1321, 5));
    assert(no_divisor_upto(1321, 6));
    assert(no_divisor_upto(1321, 7));
    assert(no_divisor_upto(1321, 8));
    assert(no_divisor_upto(1321, 9));
    assert(no_divisor_upto(1321, 10));
    assert(no_divisor_upto(1321, 11));
    assert(no_divisor_upto(1321, 12));
    assert(no_divisor_upto(1321, 13));
    assert(no_divisor_upto(1321, 14));
    assert(no_divisor_upto(1321, 15));
    assert(no_divisor_upto(1321, 16));
    assert(no_divisor_upto(1321, 17));
    assert(no_divisor_upto(1321, 18));
    assert(no_divisor_upto(1321, 19));
    assert(no_divisor_upto(1321, 20));
    assert(no_divisor_upto(1321, 21));
    assert(no_divisor_upto(1321, 22));
    assert(no_divisor_upto(1321, 23));
    assert(no_divisor_upto(1321, 24));
    assert(no_divisor_upto(1321, 25));
    assert(no_divisor_upto(1321, 26));
    assert(no_divisor_upto(1321, 27));
    assert(no_divisor_upto(1321, 28));
    assert(no_divisor_upto(1321, 29));
    assert(no_divisor_upto(1321, 30));
    assert(no_divisor_upto(1321, 31));
    assert(no_divisor_upto(1321, 32));
    assert(no_divisor_upto(1321, 33));
    assert(no_divisor_upto(1321, 34));
    assert(no_divisor_upto(1321, 35));
    assert(no_divisor_upto(1321, 36));
    lemma_trial_division(1321, 36);
}

/// **The field modulus is prime.**
pub proof fn lemma_modulus_is_prime()
    ensures
        is_prime(p()),
{
    let qs = seq![2int, 3, 3, 5, 5, 7, 11, 13, 31, 41, 61, 151, 331, 1321];
    assert(prod(Seq::<int>::empty()) == 1);
    assert(seq![1321int].drop_first() =~= Seq::<int>::empty());
    assert(prod(seq![1321int]) == 1321);
    assert(seq![331int, 1321].drop_first() =~= seq![1321int]);
    assert(prod(seq![331int, 1321]) == 437251);
    assert(seq![151int, 331, 1321].drop_first() =~= seq![331int, 1321]);
    assert(prod(seq![151int, 331, 1321]) == 66024901);
    assert(seq![61int, 151, 331, 1321].drop_first() =~= seq![151int, 331, 1321]);
    assert(prod(seq![61int, 151, 331, 1321]) == 4027518961);
    assert(seq![41int, 61, 151, 331, 1321].drop_first() =~= seq![61int, 151, 331, 1321]);
    assert(prod(seq![41int, 61, 151, 331, 1321]) == 165128277401);
    assert(seq![31int, 41, 61, 151, 331, 1321].drop_first() =~= seq![41int, 61, 151, 331, 1321]);
    assert(prod(seq![31int, 41, 61, 151, 331, 1321]) == 5118976599431);
    assert(seq![13int, 31, 41, 61, 151, 331, 1321].drop_first() =~= seq![31int, 41, 61, 151, 331, 1321]);
    assert(prod(seq![13int, 31, 41, 61, 151, 331, 1321]) == 66546695792603);
    assert(seq![11int, 13, 31, 41, 61, 151, 331, 1321].drop_first() =~= seq![13int, 31, 41, 61, 151, 331, 1321]);
    assert(prod(seq![11int, 13, 31, 41, 61, 151, 331, 1321]) == 732013653718633);
    assert(seq![7int, 11, 13, 31, 41, 61, 151, 331, 1321].drop_first() =~= seq![11int, 13, 31, 41, 61, 151, 331, 1321]);
    assert(prod(seq![7int, 11, 13, 31, 41, 61, 151, 331, 1321]) == 5124095576030431);
    assert(seq![5int, 7, 11, 13, 31, 41, 61, 151, 331, 1321].drop_first() =~= seq![7int, 11, 13, 31, 41, 61, 151, 331, 1321]);
    assert(prod(seq![5int, 7, 11, 13, 31, 41, 61, 151, 331, 1321]) == 25620477880152155);
    assert(seq![5int, 5, 7, 11, 13, 31, 41, 61, 151, 331, 1321].drop_first() =~= seq![5int, 7, 11, 13, 31, 41, 61, 151, 331, 1321]);
    assert(prod(seq![5int, 5, 7, 11, 13, 31, 41, 61, 151, 331, 1321]) == 128102389400760775);
    assert(seq![3int, 5, 5, 7, 11, 13, 31, 41, 61, 151, 331, 1321].drop_first() =~= seq![5int, 5, 7, 11, 13, 31, 41, 61, 151, 331, 1321]);
    assert(prod(seq![3int, 5, 5, 7, 11, 13, 31, 41, 61, 151, 331, 1321]) == 384307168202282325);
    assert(seq![3int, 3, 5, 5, 7, 11, 13, 31, 41, 61, 151, 331, 1321].drop_first() =~= seq![3int, 5, 5, 7, 11, 13, 31, 41, 61, 151, 331, 1321]);
    assert(prod(seq![3int, 3, 5, 5, 7, 11, 13, 31, 41, 61, 151, 331, 1321]) == 1152921504606846975);
    assert(seq![2int, 3, 3, 5, 5, 7, 11, 13, 31, 41, 61, 151, 331, 1321].drop_first() =~= seq![3int, 3, 5, 5, 7, 11, 13, 31, 41, 61, 151, 331, 1321]);
    assert(prod(seq![2int, 3, 3, 5, 5, 7, 11, 13, 31, 41, 61, 151, 331, 1321]) == 2305843009213693950);
    lemma_small_primes();
    lemma_certificate();
    assert forall|i: int| 0 <= i < qs.len() implies is_prime(#[trigger] qs[i]) && pow(
        37,
        ((p() - 1) / qs[i]) as nat,
    ) % p() != 1 by {
        if i == 0 {
            assert(qs[0] == 2 && (p() - 1) / 2 == 1152921504606846975);
        } else if i == 1 {
            assert(qs[1] == 3 && (p() - 1) / 3 == 768614336404564650);
        } else if i == 2 {
            assert(qs[2] == 3 && (p() - 1) / 3 == 768614336404564650);
        } else if i == 3 {
            assert(qs[3] == 5 && (p() - 1) / 5 == 461168601842738790);
        } else if i == 4 {
            assert(qs[4] == 5 && (p() - 1) / 5 == 461168601842738790);
        } else if i == 5 {
            assert(qs[5] == 7 && (p() - 1) / 7 == 329406144173384850);
        } else if i == 6 {
            assert(qs[6] == 11 && (p() - 1) / 11 == 209622091746699450);
        } else if i == 7 {
            assert(qs[7] == 13 && (p() - 1) / 13 == 177372539170284150);
        } else if i == 8 {
            assert(qs[8] == 31 && (p() - 1) / 31 == 74382032555280450);
        } else if i == 9 {
            assert(qs[9] == 41 && (p() - 1) / 41 == 56240073395455950);
        } else if i == 10 {
            assert(qs[10] == 61 && (p() - 1) / 61 == 37800705069076950);
        } else if i == 11 {
            assert(qs[11] == 151 && (p() - 1) / 151 == 15270483504726450);
        } else if i == 12 {
            assert(qs[12] == 331 && (p() - 1) / 331 == 6966293079195450);
        } else {
            assert(i == 13);
            assert(qs[13] == 1321 && (p() - 1) / 1321 == 1745528394559950);
        }
    }
    lemma_lucas(p(), 37, qs);
}

/// A residue that is not 0 modulo p is coprime to p.
pub proof fn lemma_nonzero_coprime(a: int)
    requires
        a % p() != 0,
    ensures
        gcd((a % p()) as nat, p() as nat) == 1,
{
    lemma_modulus_is_prime();
    let r = (a % p()) as nat;
    lemma_gcd_divides(r, p() as nat);
    let g = gcd(r, p() as nat) as int;
    lemma_divisor_le(g, r as int);
    if g != 1 {
        assert(1 < g < p());
        assert(p() % g == 0);
    }
}

/// Points that differ modulo p have a difference coprime to p.
pub proof fn lemma_distinct_coprime(a: int, b: int)
    requires
        a % p() != b % p(),
    ensures
        gcd(((a - b) % p()) as nat, p() as nat) == 1,
{
    lemma_sub_mod_noop(a, b, p());
    let d = a % p() - b % p();
    if (a - b) % p() == 0 {
        lemma_fundamental_div_mod(d, p());
        assert(d == p() * (d / p()));
        assert(d / p() == 0) by (nonlinear_arith)
            requires
                d == p() * (d / p()),
                -p() < d < p(),
                p() > 0,
        ;
    }
    lemma_nonzero_coprime(a - b);
}

/// `37^15` mod p, the root of the tree of exponents.
proof fn lemma_power_root()
    ensures
        pow(37, 15) % 2305843009213693951 == 616232432238528334,
{
    lemma_power_start(37, 2305843009213693951);
    lemma_square_mul_step(37, 0, 1, 2305843009213693951, 1, 0, 1, 0, 37);
    lemma_square_mul_step(37, 1, 3, 2305843009213693951, 37, 0, 1369, 0, 50653);
    lemma_square_mul_step(37, 3, 7, 2305843009213693951, 50653, 0, 2565726409, 0, 94931877133);
    lemma_square_mul_step(37, 7, 15, 2305843009213693951, 94931877133, 3908, 826815987892339181, 13, 616232432238528334);
}

/// `37^(N/(3·5·11·31·61·1321))` mod p, N = p − 1, as a power of its parent in the tree.
proof fn lemma_power_over_3_5_11_31_61_1321()
    ensures
        pow(616232432238528334, 372958222) % 2305843009213693951 == 1001450271706681694,
{
    lemma_power_start(616232432238528334, 2305843009213693951);
    lemma_square_mul_step(616232432238528334, 0, 1, 2305843009213693951, 1, 0, 1, 0, 616232432238528334);
    lemma_square_step(616232432238528334, 1, 2, 2305843009213693951, 616232432238528334, 164687018598073081, 402778895455182525);
    lemma_square_mul_step(616232432238528334, 2, 5, 2305843009213693951, 402778895455182525, 70356411072156436, 2127665702166456989, 568614864670963580, 1136091681881521746);
    lemma_square_mul_step(616232432238528334, 5, 11, 2305843009213693951, 1136091681881521746, 559753766619403364, 1672956146555037352, 447094546810261674, 1134656632419397594);
    lemma_square_step(616232432238528334, 11, 22, 2305843009213693951, 1134656632419397594, 558340558463411828, 1306477743387536408);
    lemma_square_step(616232432238528334, 22, 44, 2305843009213693951, 1306477743387536408, 740242977143984734, 675993355833398430);
    lemma_square_step(616232432238528334, 44, 88, 2305843009213693951, 675993355833398430, 198177853091016838, 2158115750406717962);
    lemma_square_mul_step(616232432238528334, 88, 177, 2305843009213693951, 2158115750406717962, 2019852857954008716, 397122157802956528, 106130188491097394, 742884540448600658);
    lemma_square_mul_step(616232432238528334, 177, 355, 2305843009213693951, 742884540448600658, 239338687947243227, 1470144662622413087, 392893539399820128, 661946964860261330);
    lemma_square_mul_step(616232432238528334, 355, 711, 2305843009213693951, 661946964860261330, 190027587540372876, 661929260007695824, 176899414328943712, 508005076603591104);
    lemma_square_step(616232432238528334, 711, 1422, 2305843009213693951, 508005076603591104, 111919656639167108, 498875056170175108);
    lemma_square_mul_step(616232432238528334, 1422, 2845, 2305843009213693951, 498875056170175108, 107932899453403664, 1479103118024775200, 395287670630627774, 2228163922544121726);
    lemma_square_step(616232432238528334, 2845, 5690, 2305843009213693951, 2228163922544121726, 2153101683804659260, 380123507227082816);
    lemma_square_mul_step(616232432238528334, 5690, 11381, 2305843009213693951, 380123507227082816, 62664231766537890, 783595828017186466, 209414587663389242, 1580620639928452502);
    lemma_square_mul_step(616232432238528334, 11381, 22763, 2305843009213693951, 1580620639928452502, 1083491632945031553, 157873069089824101, 42191296181676654, 1061620687166857780);
    lemma_square_mul_step(616232432238528334, 22763, 45527, 2305843009213693951, 1061620687166857780, 488775028879766655, 1043109903281524495, 278769261490385611, 886288862044402269);
    lemma_square_step(616232432238528334, 45527, 91054, 2305843009213693951, 886288862044402269, 340659769049855806, 2208255860327918855);
    lemma_square_step(616232432238528334, 91054, 182108, 2305843009213693951, 2208255860327918855, 2114798763483675381, 181008830297190694);
    lemma_square_mul_step(616232432238528334, 182108, 364217, 2305843009213693951, 181008830297190694, 14209205273142148, 1059547236809454888, 283162109563284806, 459895897150388086);
    lemma_square_step(616232432238528334, 364217, 728434, 2305843009213693951, 459895897150388086, 91725340958005864, 1839239686251414732);
    lemma_square_step(616232432238528334, 728434, 1456868, 2305843009213693951, 1839239686251414732, 1467056781387627132, 165132179114753292);
    lemma_square_step(616232432238528334, 1456868, 2913736, 2305843009213693951, 165132179114753292, 11825886007948879, 1947283729665306335);
    lemma_square_step(616232432238528334, 2913736, 5827472, 2305843009213693951, 1947283729665306335, 1644480525633135287, 2189618910394583288);
    lemma_square_step(616232432238528334, 5827472, 11654944, 2305843009213693951, 2189618910394583288, 2079252990598215687, 1672667384463681607);
    lemma_square_step(616232432238528334, 11654944, 23309888, 2305843009213693951, 1672667384463681607, 1213359351815822645, 1964751838344782054);
    lemma_square_mul_step(616232432238528334, 23309888, 46619777, 2305843009213693951, 1964751838344782054, 1674116481848245388, 454041337381210928, 121341737730301763, 2008370238400698339);
    lemma_square_mul_step(616232432238528334, 46619777, 93239555, 2305843009213693951, 2008370238400698339, 1749273909098062377, 620076334091777394, 165714294513583742, 272436261892336954);
    lemma_square_mul_step(616232432238528334, 93239555, 186479111, 2305843009213693951, 272436261892336954, 32188451901233285, 2237340660029639081, 597925301578259269, 1283980012717239235);
    lemma_square_step(616232432238528334, 186479111, 372958222, 2305843009213693951, 1283980012717239235, 714968307239418581, 1001450271706681694);
}

/// `37^(N/(11·1321))` mod p, N = p − 1, as a power of its parent in the tree.
proof fn lemma_power_over_11_1321()
    ensures
        pow(1001450271706681694, 28365) % 2305843009213693951 == 2266076075764652044,
{
    lemma_power_start(1001450271706681694, 2305843009213693951);
    lemma_square_mul_step(1001450271706681694, 0, 1, 2305843009213693951, 1, 0, 1, 0, 1001450271706681694);
    lemma_square_mul_step(1001450271706681694, 1, 3, 2305843009213693951, 1001450271706681694, 434939691338042263, 459641069849258523, 199626632189958775, 1791006022520707937);
    lemma_square_step(1001450271706681694, 3, 6, 2305843009213693951, 1791006022520707937, 1391119239205834771, 754055110186625748);
    lemma_square_mul_step(1001450271706681694, 6, 13, 2305843009213693951, 754055110186625748, 246590555786562392, 27939771562068712, 12134517272187482, 1604091872099236746);
    lemma_square_mul_step(1001450271706681694, 13, 27, 2305843009213693951, 1604091872099236746, 1115908899197903337, 629623227757054029, 273451553289031719, 211971916665813357);
    lemma_square_mul_step(1001450271706681694, 27, 55, 2305843009213693951, 211971916665813357, 19486189335283771, 1226173658628440228, 532539265980543176, 643346900495257856);
    lemma_square_step(1001450271706681694, 55, 110, 2305843009213693951, 643346900495257856, 179498444917113384, 112346861387776552);
    lemma_square_mul_step(1001450271706681694, 110, 221, 2305843009213693951, 112346861387776552, 5473840679200615, 1475443760340028839, 640799720005359222, 373169013629907144);
    lemma_square_mul_step(1001450271706681694, 221, 443, 2305843009213693951, 373169013629907144, 60392278302157542, 1415437259087808294, 614738307002356972, 762243558292093664);
    lemma_square_step(1001450271706681694, 443, 886, 2305843009213693951, 762243558292093664, 251975195117867981, 1546023783992661965);
    lemma_square_step(1001450271706681694, 886, 1772, 2305843009213693951, 1546023783992661965, 1036579477059046537, 1199033618973263538);
    lemma_square_mul_step(1001450271706681694, 1772, 3545, 2305843009213693951, 1199033618973263538, 623495014050578937, 153112722515367357, 66498359581319658, 1864793666365074000);
    lemma_square_mul_step(1001450271706681694, 3545, 7091, 2305843009213693951, 1864793666365074000, 1508105887616836370, 1663205957450202130, 722346686802698751, 754067979306853019);
    lemma_square_step(1001450271706681694, 7091, 14182, 2305843009213693951, 754067979306853019, 246598972759131063, 1534187322090114448);
    lemma_square_mul_step(1001450271706681694, 14182, 28365, 2305843009213693951, 1534187322090114448, 1020767992381524975, 1600381379425418479, 695061355372337482, 2266076075764652044);
}

/// `37^(N/(1321))` mod p, N = p − 1, as a power of its parent in the tree.
proof fn lemma_power_over_1321()
    ensures
        pow(2266076075764652044, 11) % 2305843009213693951 == 30210013857155493,
{
    lemma_power_start(2266076075764652044, 2305843009213693951);
    lemma_square_mul_step(2266076075764652044, 0, 1, 2305843009213693951, 1, 0, 1, 0, 2266076075764652044);
    lemma_square_step(2266076075764652044, 1, 2, 2305843009213693951, 2266076075764652044, 2226994969143204873, 726069957279554713);
    lemma_square_mul_step(2266076075764652044, 2, 5, 2305843009213693951, 726069957279554713, 228626832250693887, 146014537355934832, 143496347537103162, 828507173037223546);
    lemma_square_mul_step(2266076075764652044, 5, 11, 2305843009213693951, 828507173037223546, 297689015701119458, 1094734134273815558, 1075854176146524509, 30210013857155493);
}

/// `37^(N/(11))` mod p, N = p − 1, as a power of its parent in the tree.
proof fn lemma_power_over_11()
    ensures
        pow(2266076075764652044, 1321) % 2305843009213693951 == 2266698407988980144,
{
    lemma_power_start(2266076075764652044, 2305843009213693951);
    lemma_square_mul_step(2266076075764652044, 0, 1, 2305843009213693951, 1, 0, 1, 0, 2266076075764652044);
    lemma_square_step(2266076075764652044, 1, 2, 2305843009213693951, 2266076075764652044, 2226994969143204873, 726069957279554713);
    lemma_square_mul_step(2266076075764652044, 2, 5, 2305843009213693951, 726069957279554713, 228626832250693887, 146014537355934832, 143496347537103162, 828507173037223546);
    lemma_square_step(2266076075764652044, 5, 10, 2305843009213693951, 828507173037223546, 297689015701119458, 1094734134273815558);
    lemma_square_step(2266076075764652044, 10, 20, 2305843009213693951, 1094734134273815558, 519741725674948050, 1210968263278605814);
    lemma_square_mul_step(2266076075764652044, 20, 41, 2305843009213693951, 1210968263278605814, 635968766654269691, 908295203305263455, 892630600486426463, 1807510222074826707);
    lemma_square_step(2266076075764652044, 41, 82, 2305843009213693951, 1807510222074826707, 1416875819320885764, 1053730852351650285);
    lemma_square_mul_step(2266076075764652044, 82, 165, 2305843009213693951, 1053730852351650285, 481536993091464133, 1703172690985021742, 1673799505219992885, 1988403529617202013);
    lemma_square_step(2266076075764652044, 165, 330, 2305843009213693951, 1988403529617202013, 1714665127155555453, 415479965500087366);
    lemma_square_step(2266076075764652044, 330, 660, 2305843009213693951, 415479965500087366, 74863553608022713, 254669657794108893);
    lemma_square_mul_step(2266076075764652044, 660, 1321, 2305843009213693951, 254669657794108893, 28127081653787446, 492765868491746303, 484267550340870588, 2266698407988980144);
}

/// `37^(N/(3·5·31·61))` mod p, N = p − 1, as a power of its parent in the tree.
proof fn lemma_power_over_3_5_31_61()
    ensures
        pow(1001450271706681694, 14531) % 2305843009213693951 == 69443194934440108,
{
    lemma_power_start(1001450271706681694, 2305843009213693951);
    lemma_square_mul_step(1001450271706681694, 0, 1, 2305843009213693951, 1, 0, 1, 0, 1001450271706681694);
    lemma_square_mul_step(1001450271706681694, 1, 3, 2305843009213693951, 1001450271706681694, 434939691338042263, 459641069849258523, 199626632189958775, 1791006022520707937);
    lemma_square_mul_step(1001450271706681694, 3, 7, 2305843009213693951, 1791006022520707937, 1391119239205834771, 754055110186625748, 327493542257986727, 706382859742468735);
    lemma_square_step(1001450271706681694, 7, 14, 2305843009213693951, 706382859742468735, 216396668179115223, 1279629437765384152);
    lemma_square_step(1001450271706681694, 14, 28, 2305843009213693951, 1279629437765384152, 710131388586655671, 789024952920212983);
    lemma_square_step(1001450271706681694, 28, 56, 2305843009213693951, 789024952920212983, 269992525008474479, 1762901035181581760);
    lemma_square_mul_step(1001450271706681694, 56, 113, 2305843009213693951, 1762901035181581760, 1347802104230884962, 1985072853808432738, 862136641939867472, 582423764266836300);
    lemma_square_mul_step(1001450271706681694, 113, 227, 2305843009213693951, 582423764266836300, 147112114670125112, 822501906150092488, 357220658172283157, 178485586166431365);
    lemma_square_step(1001450271706681694, 227, 454, 2305843009213693951, 178485586166431365, 13815816749830707, 1312268513895809868);
    lemma_square_step(1001450271706681694, 454, 908, 2305843009213693951, 1312268513895809868, 746819556093520031, 1316144187684144943);
    lemma_square_step(1001450271706681694, 908, 1816, 2305843009213693951, 1316144187684144943, 751237406819582338, 1078401049055435811);
    lemma_square_step(1001450271706681694, 1816, 3632, 2305843009213693951, 1078401049055435811, 504348655982627747, 1624366373522569324);
    lemma_square_mul_step(1001450271706681694, 3632, 7265, 2305843009213693951, 1624366373522569324, 1144295645838712060, 1420602773533067916, 616981740672402906, 550524708248908098);
    lemma_square_mul_step(1001450271706681694, 7265, 14531, 2305843009213693951, 550524708248908098, 131438893793509635, 2033829842190259719, 883312280987050778, 69443194934440108);
}

/// `37^(N/(3·61))` mod p, N = p − 1, as a power of its parent in the tree.
proof fn lemma_power_over_3_61()
    ensures
        pow(69443194934440108, 155) % 2305843009213693951 == 444526824398904494,
{
    lemma_power_start(69443194934440108, 2305843009213693951);
    lemma_square_mul_step(69443194934440108, 0, 1, 2305843009213693951, 1, 0, 1, 0, 69443194934440108);
    lemma_square_step(69443194934440108, 1, 2, 2305843009213693951, 69443194934440108, 2091364114310236, 1877321525468469228);
    lemma_square_step(69443194934440108, 2, 4, 2305843009213693951, 1877321525468469228, 1528437146806919752, 538977333638095832);
    lemma_square_mul_step(69443194934440108, 4, 9, 2305843009213693951, 538977333638095832, 125982803258879410, 1157728095860323314, 34866353659229480, 2072070411252202432);
    lemma_square_mul_step(69443194934440108, 9, 19, 2305843009213693951, 2072070411252202432, 1861998311260128611, 918750000053982563, 27669245085129219, 1074261128846182535);
    lemma_square_step(69443194934440108, 19, 38, 2305843009213693951, 1074261128846182535, 500483757280339653, 281927170467487222);
    lemma_square_mul_step(69443194934440108, 38, 77, 2305843009213693951, 281927170467487222, 34470225913128295, 124709159604833739, 3755764137430090, 914560089474818222);
    lemma_square_mul_step(69443194934440108, 77, 155, 2305843009213693951, 914560089474818222, 362739420644865026, 35980450675583558, 1083593913423270, 444526824398904494);
}

/// `37^(N/(61))` mod p, N = p − 1, as a power of its parent in the tree.
proof fn lemma_power_over_61()
    ensures
        pow(444526824398904494, 3) % 2305843009213693951 == 35184372088832,
{
    lemma_power_start(444526824398904494, 2305843009213693951);
    lemma_square_mul_step(444526824398904494, 0, 1, 2305843009213693951, 1, 0, 1, 0, 444526824398904494);
    lemma_square_mul_step(444526824398904494, 1, 3, 2305843009213693951, 444526824398904494, 85697116768395534, 2061150307742181202, 397354285286706756, 35184372088832);
}

/// `37^(N/(3))` mod p, N = p − 1, as a power of its parent in the tree.
proof fn lemma_power_over_3()
    ensures
        pow(444526824398904494, 61) % 2305843009213693951 == 1669582390241348315,
{
    lemma_power_start(444526824398904494, 2305843009213693951);
    lemma_square_mul_step(444526824398904494, 0, 1, 2305843009213693951, 1, 0, 1, 0, 444526824398904494);
    lemma_square_mul_step(444526824398904494, 1, 3, 2305843009213693951, 444526824398904494, 85697116768395534, 2061150307742181202, 397354285286706756, 35184372088832);
    lemma_square_mul_step(444526824398904494, 3, 7, 2305843009213693951, 35184372088832, 536870912, 536870912, 103499466, 1490053303678748362);
    lemma_square_mul_step(444526824398904494, 7, 15, 2305843009213693951, 1490053303678748362, 962883786507683206, 834104540771196138, 160800991760564468, 4398046511104);
    lemma_square_step(444526824398904494, 15, 30, 2305843009213693951, 4398046511104, 8388608, 8388608);
    lemma_square_mul_step(444526824398904494, 30, 61, 2305843009213693951, 8388608, 0, 70368744177664, 13565882092251, 1669582390241348315);
}

/// `37^(N/(5·31))` mod p, N = p − 1, as a power of its parent in the tree.
proof fn lemma_power_over_5_31()
    ensures
        pow(69443194934440108, 183) % 2305843009213693951 == 2301721742830805320,
{
    lemma_power_start(69443194934440108, 2305843009213693951);
    lemma_square_mul_step(69443194934440108, 0, 1, 2305843009213693951, 1, 0, 1, 0, 69443194934440108);
    lemma_square_step(69443194934440108, 1, 2, 2305843009213693951, 69443194934440108, 2091364114310236, 1877321525468469228);
    lemma_square_mul_step(69443194934440108, 2, 5, 2305843009213693951, 1877321525468469228, 1528437146806919752, 538977333638095832, 16231941157970822, 333372012072532134);
    lemma_square_mul_step(69443194934440108, 5, 11, 2305843009213693951, 333372012072532134, 48197946689868903, 130433541908488203, 3928160694612659, 1618385010011720215);
    lemma_square_step(69443194934440108, 11, 22, 2305843009213693951, 1618385010011720215, 1135883939264272875, 1394184284638767100);
    lemma_square_mul_step(69443194934440108, 22, 45, 2305843009213693951, 1394184284638767100, 842967110842702556, 422473155332971244, 12723279756309129, 921622585250875673);
    lemma_square_mul_step(69443194934440108, 45, 91, 2305843009213693951, 921622585250875673, 368363408198441911, 316986970297622568, 9546438279664929, 976814813951012865);
    lemma_square_mul_step(69443194934440108, 91, 183, 2305843009213693951, 976814813951012865, 413804052115208184, 1183269559369013241, 35635565102618108, 2301721742830805320);
}

/// `37^(N/(31))` mod p, N = p − 1, as a power of its parent in the tree.
proof fn lemma_power_over_31()
    ensures
        pow(2301721742830805320, 5) % 2305843009213693951 == 484083891529811867,
{
    lemma_power_start(2301721742830805320, 2305843009213693951);
    lemma_square_mul_step(2301721742830805320, 0, 1, 2305843009213693951, 1, 0, 1, 0, 2301721742830805320);
    lemma_square_step(2301721742830805320, 1, 2, 2305843009213693951, 2301721742830805320, 2297607842446612549, 1972450276578311301);
    lemma_square_mul_step(2301721742830805320, 2, 5, 2305843009213693951, 1972450276578311301, 1687261482255273162, 380911942292269539, 380231132897901763, 484083891529811867);
}

/// `37^(N/(5))` mod p, N = p − 1, as a power of its parent in the tree.
proof fn lemma_power_over_5()
    ensures
        pow(2301721742830805320, 31) % 2305843009213693951 == 725554454131936870,
{
    lemma_power_start(2301721742830805320, 2305843009213693951);
    lemma_square_mul_step(2301721742830805320, 0, 1, 2305843009213693951, 1, 0, 1, 0, 2301721742830805320);
    lemma_square_mul_step(2301721742830805320, 1, 3, 2305843009213693951, 2301721742830805320, 2297607842446612549, 1972450276578311301, 1968924887822745668, 2128829446023867052);
    lemma_square_mul_step(2301721742830805320, 3, 7, 2305843009213693951, 2128829446023867052, 1965404753120505948, 426977993024050156, 426214849114490008, 461697216392088312);
    lemma_square_mul_step(2301721742830805320, 7, 15, 2305843009213693951, 461697216392088312, 92445287373182057, 1379016830204372137, 1376552093584814955, 1914371256341531635);
    lemma_square_mul_step(2301721742830805320, 15, 31, 2305843009213693951, 1914371256341531635, 1589361154451004240, 1740096485742420985, 1736986386259924830, 725554454131936870);
}

/// `37^(N/(2·7·13·41·151·331))` mod p, N = p − 1, as a power of its parent in the tree.
proof fn lemma_power_over_2_7_13_41_151_331()
    ensures
        pow(616232432238528334, 412171815) % 2305843009213693951 == 1133352772447735726,
{
    lemma_power_start(616232432238528334, 2305843009213693951);
    lemma_square_mul_step(616232432238528334, 0, 1, 2305843009213693951, 1, 0, 1, 0, 616232432238528334);
    lemma_square_mul_step(616232432238528334, 1, 3, 2305843009213693951, 616232432238528334, 164687018598073081, 402778895455182525, 107641941541082869, 1733397811259137931);
    lemma_square_step(616232432238528334, 3, 6, 2305843009213693951, 1733397811259137931, 1303067017169820005, 2117691829455671006);
    lemma_square_step(616232432238528334, 6, 12, 2305843009213693951, 2117691829455671006, 1944893328220375316, 108738369730138520);
    lemma_square_step(616232432238528334, 12, 24, 2305843009213693951, 108738369730138520, 5127856928820305, 2242069936643315345);
    lemma_square_mul_step(616232432238528334, 24, 49, 2305843009213693951, 2242069936643315345, 2180060646242328075, 659476408327494700, 176243894091542060, 1290265718700750740);
    lemma_square_step(616232432238528334, 49, 98, 2305843009213693951, 1290265718700750740, 721985676475896137, 1578216004829380313);
    lemma_square_step(616232432238528334, 98, 196, 2305843009213693951, 1578216004829380313, 1080197458346904709, 674992830705262710);
    lemma_square_mul_step(616232432238528334, 196, 393, 2305843009213693951, 674992830705262710, 197591648556712000, 239038855267432100, 63882707795963348, 650542861585813452);
    lemma_square_step(616232432238528334, 393, 786, 2305843009213693951, 650542861585813452, 183536352244802035, 2238866963472166019);
    lemma_square_step(616232432238528334, 786, 1572, 2305843009213693951, 2238866963472166019, 2173836319340915502, 1349917875918779959);
    lemma_square_step(616232432238528334, 1572, 3144, 2305843009213693951, 1349917875918779959, 790287224430980767, 1522002953154801264);
    lemma_square_mul_step(616232432238528334, 3144, 6289, 2305843009213693951, 1522002953154801264, 1004618692667144727, 467568187734551319, 124956764365010977, 382854573525072419);
    lemma_square_step(616232432238528334, 6289, 12578, 2305843009213693951, 382854573525072419, 63567911554849918, 1174847525005065543);
    lemma_square_step(616232432238528334, 12578, 25156, 2305843009213693951, 1174847525005065543, 598595264940091122, 1611081861565681827);
    lemma_square_mul_step(616232432238528334, 25156, 50313, 2305843009213693951, 1611081861565681827, 1125655456288436772, 2300365225975691757, 614768504436617557, 1163447455463445131);
    lemma_square_mul_step(616232432238528334, 50313, 100627, 2305843009213693951, 1163447455463445131, 587034753110080169, 718373509207249442, 191984039271376225, 1909341242394974653);
    lemma_square_mul_step(616232432238528334, 100627, 201255, 2305843009213693951, 1909341242394974653, 1581020028398876541, 1193443027504966918, 318945520852387702, 914385577851464010);
    lemma_square_mul_step(616232432238528334, 201255, 402511, 2305843009213693951, 914385577851464010, 362601001734229560, 2257867093707888540, 603410954374302790, 357073210038469070);
    lemma_square_mul_step(616232432238528334, 402511, 805023, 2305843009213693951, 357073210038469070, 55294864749120685, 99917881393188465, 26702875620331999, 659308411706429261);
    lemma_square_step(616232432238528334, 805023, 1610046, 2305843009213693951, 659308411706429261, 188515688192963949, 1580549785134633622);
    lemma_square_step(616232432238528334, 1610046, 3220092, 2305843009213693951, 1580549785134633622, 1083394495335142592, 1648711734539977892);
    lemma_square_step(616232432238528334, 3220092, 6440184, 2305843009213693951, 1648711734539977892, 1178853188507730160, 2177929487916501504);
    lemma_square_mul_step(616232432238528334, 6440184, 12880369, 2305843009213693951, 2177929487916501504, 2057111796155521411, 1049526223052577155, 280484011507076581, 629585695135148239);
    lemma_square_step(616232432238528334, 12880369, 25760738, 2305843009213693951, 629585695135148239, 171901619466268479, 1109688523000530592);
    lemma_square_step(616232432238528334, 25760738, 51521476, 2305843009213693951, 1109688523000530592, 534038359575492828, 488906316340387036);
    lemma_square_mul_step(616232432238528334, 51521476, 103042953, 2305843009213693951, 488906316340387036, 103662471903946760, 439920370638816536, 117567934550096347, 2230927357242634027);
    lemma_square_mul_step(616232432238528334, 103042953, 206085907, 2305843009213693951, 2230927357242634027, 2158445676226154753, 1476818993352237626, 394677242385135969, 87597658214071565);
    lemma_square_mul_step(616232432238528334, 206085907, 412171815, 2305843009213693951, 87597658214071565, 3327784976656306, 617011292143344219, 164895167518706420, 1133352772447735726);
}

/// `37^(N/(7·13·331))` mod p, N = p − 1, as a power of its parent in the tree.
proof fn lemma_power_over_7_13_331()
    ensures
        pow(1133352772447735726, 12382) % 2305843009213693951 == 2050051711507624485,
{
    lemma_power_start(1133352772447735726, 2305843009213693951);
    lemma_square_mul_step(1133352772447735726, 0, 1, 2305843009213693951, 1, 0, 1, 0, 1133352772447735726);
    lemma_square_mul_step(1133352772447735726, 1, 3, 2305843009213693951, 1133352772447735726, 557058091848580439, 145587225585522587, 71558074461709557, 1334308968130053455);
    lemma_square_step(1133352772447735726, 3, 6, 2305843009213693951, 1334308968130053455, 772116928740698707, 2220808056958015668);
    lemma_square_step(1133352772447735726, 6, 12, 2305843009213693951, 2220808056958015668, 2138909026391815837, 213872902860584237);
    lemma_square_step(1133352772447735726, 12, 24, 2305843009213693951, 213872902860584237, 19837264894113958, 2290020346643604111);
    lemma_square_step(1133352772447735726, 24, 48, 2305843009213693951, 2290020346643604111, 2274306258963394694, 2003199841162804327);
    lemma_square_step(1133352772447735726, 48, 96, 2305843009213693951, 2003199841162804327, 1740278756012568348, 363359394948259981);
    lemma_square_mul_step(1133352772447735726, 96, 193, 2305843009213693951, 363359394948259981, 57258906772750589, 1635927986065133222, 804080551504680674, 1333979416218486198);
    lemma_square_step(1133352772447735726, 193, 386, 2305843009213693951, 1333979416218486198, 771735576005858954, 1187031569687507950);
    lemma_square_mul_step(1133352772447735726, 386, 773, 2305843009213693951, 1187031569687507950, 611075403574539677, 697283281728808673, 342724087186788540, 1760572064206630058);
    lemma_square_mul_step(1133352772447735726, 773, 1547, 2305843009213693951, 1760572064206630058, 1344243290145663880, 2299414204833893484, 1130192928851160775, 1092915244519437359);
    lemma_square_mul_step(1133352772447735726, 1547, 3095, 2305843009213693951, 1092915244519437359, 518016069147006118, 1210174362748302663, 594816934060774940, 1015182553035650398);
    lemma_square_mul_step(1133352772447735726, 3095, 6191, 2305843009213693951, 1015182553035650398, 446949602323282324, 1968469243773536280, 967529040786523028, 185959900507335652);
    lemma_square_step(1133352772447735726, 6191, 12382, 2305843009213693951, 185959900507335652, 14997154818658069, 2050051711507624485);
}

/// `37^(N/(331))` mod p, N = p − 1, as a power of its parent in the tree.
proof fn lemma_power_over_331()
    ensures
        pow(2050051711507624485, 91) % 2305843009213693951 == 185945230422323302,
{
    lemma_power_start(2050051711507624485, 2305843009213693951);
    lemma_square_mul_step(2050051711507624485, 0, 1, 2305843009213693951, 1, 0, 1, 0, 2050051711507624485);
    lemma_square_step(2050051711507624485, 1, 2, 2305843009213693951, 2050051711507624485, 1822635800903241008, 29194276066772617);
    lemma_square_mul_step(2050051711507624485, 2, 5, 2305843009213693951, 29194276066772617, 369628700504451, 1895192315553752788, 1684955235292431869, 1439123289340889761);
    lemma_square_mul_step(2050051711507624485, 5, 11, 2305843009213693951, 1439123289340889761, 898185970878213157, 1859687964815123814, 1653389445814633166, 29055231434806924);
    lemma_square_step(2050051711507624485, 11, 22, 2305843009213693951, 29055231434806924, 366116197137840, 1433443909237135936);
    lemma_square_mul_step(2050051711507624485, 22, 45, 2305843009213693951, 1433443909237135936, 891110727277885306, 1950240560178612090, 1733896879479720367, 372108887601623633);
    lemma_square_mul_step(2050051711507624485, 45, 91, 2305843009213693951, 372108887601623633, 60049632034288040, 1847188399044472649, 1642276479277521113, 185945230422323302);
}

/// `37^(N/(7·13))` mod p, N = p − 1, as a power of its parent in the tree.
proof fn lemma_power_over_7_13()
    ensures
        pow(2050051711507624485, 331) % 2305843009213693951 == 223417494601207010,
{
    lemma_power_start(2050051711507624485, 2305843009213693951);
    lemma_square_mul_step(2050051711507624485, 0, 1, 2305843009213693951, 1, 0, 1, 0, 2050051711507624485);
    lemma_square_step(2050051711507624485, 1, 2, 2305843009213693951, 2050051711507624485, 1822635800903241008, 29194276066772617);
    lemma_square_mul_step(2050051711507624485, 2, 5, 2305843009213693951, 29194276066772617, 369628700504451, 1895192315553752788, 1684955235292431869, 1439123289340889761);
    lemma_square_step(2050051711507624485, 5, 10, 2305843009213693951, 1439123289340889761, 898185970878213157, 1859687964815123814);
    lemma_square_step(2050051711507624485, 10, 20, 2305843009213693951, 1859687964815123814, 1499858972470795126, 1067117647563423770);
    lemma_square_mul_step(2050051711507624485, 20, 41, 2305843009213693951, 1067117647563423770, 493849784738646443, 314416876804246607, 279538049140314254, 1084782514372494841);
    lemma_square_step(2050051711507624485, 41, 82, 2305843009213693951, 1084782514372494841, 510335308512434988, 1225147897355257693);
    lemma_square_mul_step(2050051711507624485, 82, 165, 2305843009213693951, 1225147897355257693, 650949507141795648, 1340193409179957001, 1191523352310750316, 1384658597154230969);
    lemma_square_mul_step(2050051711507624485, 165, 331, 2305843009213693951, 1384658597154230969, 831487409599028367, 319160177293370944, 283755166804903330, 223417494601207010);
}

/// `37^(N/(13))` mod p, N = p − 1, as a power of its parent in the tree.
proof fn lemma_power_over_13()
    ensures
        pow(223417494601207010, 7) % 2305843009213693951 == 1032504562576723207,
{
    lemma_power_start(223417494601207010, 2305843009213693951);
    lemma_square_mul_step(223417494601207010, 0, 1, 2305843009213693951, 1, 0, 1, 0, 223417494601207010);
    lemma_square_mul_step(223417494601207010, 1, 3, 2305843009213693951, 223417494601207010, 21647344027511136, 371172417524801764, 35963598240256064, 1349823543809296776);
    lemma_square_mul_step(223417494601207010, 3, 7, 2305843009213693951, 1349823543809296776, 790176777925228011, 1133939352397532715, 109869530635896593, 1032504562576723207);
}

/// `37^(N/(7))` mod p, N = p − 1, as a power of its parent in the tree.
proof fn lemma_power_over_7()
    ensures
        pow(223417494601207010, 13) % 2305843009213693951 == 1165310750493918737,
{
    lemma_power_start(223417494601207010, 2305843009213693951);
    lemma_square_mul_step(223417494601207010, 0, 1, 2305843009213693951, 1, 0, 1, 0, 223417494601207010);
    lemma_square_mul_step(223417494601207010, 1, 3, 2305843009213693951, 223417494601207010, 21647344027511136, 371172417524801764, 35963598240256064, 1349823543809296776);
    lemma_square_step(223417494601207010, 3, 6, 2305843009213693951, 1349823543809296776, 790176777925228011, 1133939352397532715);
    lemma_square_mul_step(223417494601207010, 6, 13, 2305843009213693951, 1133939352397532715, 557634864896638193, 223277060415600682, 21633737093396733, 1165310750493918737);
}

/// `37^(N/(2·41·151))` mod p, N = p − 1, as a power of its parent in the tree.
proof fn lemma_power_over_2_41_151()
    ensures
        pow(1133352772447735726, 30121) % 2305843009213693951 == 178484834314478121,
{
    lemma_power_start(1133352772447735726, 2305843009213693951);
    lemma_square_mul_step(1133352772447735726, 0, 1, 2305843009213693951, 1, 0, 1, 0, 1133352772447735726);
    lemma_square_mul_step(1133352772447735726, 1, 3, 2305843009213693951, 1133352772447735726, 557058091848580439, 145587225585522587, 71558074461709557, 1334308968130053455);
    lemma_square_mul_step(1133352772447735726, 3, 7, 2305843009213693951, 1334308968130053455, 772116928740698707, 2220808056958015668, 1091556952650446869, 1072995458279165549);
    lemma_square_step(1133352772447735726, 7, 14, 2305843009213693951, 1072995458279165549, 499305134342308561, 1077192535887256890);
    lemma_square_mul_step(1133352772447735726, 14, 29, 2305843009213693951, 1077192535887256890, 503218889896109310, 1294809720870688290, 636416347980902403, 2075454319600384287);
    lemma_square_step(1133352772447735726, 29, 58, 2305843009213693951, 2075454319600384287, 1868084954411870643, 902420092072917876);
    lemma_square_mul_step(1133352772447735726, 58, 117, 2305843009213693951, 902420092072917876, 353173229627022970, 1058700675813296906, 520365584877549025, 428155035313015981);
    lemma_square_mul_step(1133352772447735726, 117, 235, 2305843009213693951, 428155035313015981, 79500960616742962, 39067816060169499, 19202355697394249, 1637496899844333475);
    lemma_square_step(1133352772447735726, 235, 470, 2305843009213693951, 1637496899844333475, 1162870189464535558, 648677867236565967);
    lemma_square_mul_step(1133352772447735726, 470, 941, 2305843009213693951, 648677867236565967, 182485526447903916, 2253377407264232973, 1107565225251347090, 1513641042264840808);
    lemma_square_step(1133352772447735726, 941, 1882, 2305843009213693951, 1513641042264840808, 993610230910679097, 1983416308251050617);
    lemma_square_mul_step(1133352772447735726, 1882, 3765, 2305843009213693951, 1983416308251050617, 1706074626987603739, 868307562286797900, 426784815411462403, 1904576759386751147);
    lemma_square_step(1133352772447735726, 3765, 7530, 2305843009213693951, 1904576759386751147, 1573139462618102369, 1689294175351745690);
    lemma_square_step(1133352772447735726, 7530, 15060, 2305843009213693951, 1689294175351745690, 1237601519042906601, 196753671341905549);
    lemma_square_mul_step(1133352772447735726, 15060, 30121, 2305843009213693951, 196753671341905549, 16788656917159164, 40644464985974437, 19977299795538691, 178484834314478121);
}

/// `37^(N/(151))` mod p, N = p − 1, as a power of its parent in the tree.
proof fn lemma_power_over_151()
    ensures
        pow(178484834314478121, 82) % 2305843009213693951 == 1433721343585656393,
{
    lemma_power_start(178484834314478121, 2305843009213693951);
    lemma_square_mul_step(178484834314478121, 0, 1, 2305843009213693951, 1, 0, 1, 0, 178484834314478121);
    lemma_square_step(178484834314478121, 1, 2, 2305843009213693951, 178484834314478121, 13815700354695905, 2085725102244719986);
    lemma_square_mul_step(178484834314478121, 2, 5, 2305843009213693951, 2085725102244719986, 1886619854322696601, 1433291140905879645, 110944557277657692, 1119947494382725953);
    lemma_square_step(178484834314478121, 5, 10, 2305843009213693951, 1119947494382725953, 543958276934848076, 2149642180154569933);
    lemma_square_step(178484834314478121, 10, 20, 2305843009213693951, 2149642180154569933, 2004022600079555107, 886549736050566732);
    lemma_square_mul_step(178484834314478121, 20, 41, 2305843009213693951, 886549736050566732, 340860341033950134, 659257063113720390, 51030094941557665, 1376965901038402775);
    lemma_square_step(178484834314478121, 41, 82, 2305843009213693951, 1376965901038402775, 822274146612027832, 1433721343585656393);
}

/// `37^(N/(2·41))` mod p, N = p − 1, as a power of its parent in the tree.
proof fn lemma_power_over_2_41()
    ensures
        pow(178484834314478121, 151) % 2305843009213693951 == 1898874625507073112,
{
    lemma_power_start(178484834314478121, 2305843009213693951);
    lemma_square_mul_step(178484834314478121, 0, 1, 2305843009213693951, 1, 0, 1, 0, 178484834314478121);
    lemma_square_step(178484834314478121, 1, 2, 2305843009213693951, 178484834314478121, 13815700354695905, 2085725102244719986);
    lemma_square_step(178484834314478121, 2, 4, 2305843009213693951, 2085725102244719986, 1886619854322696601, 1433291140905879645);
    lemma_square_mul_step(178484834314478121, 4, 9, 2305843009213693951, 1433291140905879645, 890920798333020317, 1757037352922323558, 136004281110027143, 747635890568962525);
    lemma_square_step(178484834314478121, 9, 18, 2305843009213693951, 747635890568962525, 242410009108752882, 1557065524817158843);
    lemma_square_mul_step(178484834314478121, 18, 37, 2305843009213693951, 1557065524817158843, 1051438904941272247, 659120926265020752, 51019557206426887, 1314583575039306455);
    lemma_square_mul_step(178484834314478121, 37, 75, 2305843009213693951, 1314583575039306455, 749456909623880407, 1215696656281348968, 94101556526623315, 1344313974930861563);
    lemma_square_mul_step(178484834314478121, 75, 151, 2305843009213693951, 1344313974930861563, 783739420235149546, 889143603910206723, 68824567930931421, 1898874625507073112);
}

/// `37^(N/(41))` mod p, N = p − 1, as a power of its parent in the tree.
proof fn lemma_power_over_41()
    ensures
        pow(1898874625507073112, 2) % 2305843009213693951 == 1562651311446036838,
{
    lemma_power_start(1898874625507073112, 2305843009213693951);
    lemma_square_mul_step(1898874625507073112, 0, 1, 2305843009213693951, 1, 0, 1, 0, 1898874625507073112);
    lemma_square_step(1898874625507073112, 1, 2, 2305843009213693951, 1898874625507073112, 1563733883437364006, 1562651311446036838);
}

/// `37^(N/(2))` mod p, N = p − 1, as a power of its parent in the tree.
proof fn lemma_power_over_2()
    ensures
        pow(1898874625507073112, 41) % 2305843009213693951 == 2305843009213693950,
{
    lemma_power_start(1898874625507073112, 2305843009213693951);
    lemma_square_mul_step(1898874625507073112, 0, 1, 2305843009213693951, 1, 0, 1, 0, 1898874625507073112);
    lemma_square_step(1898874625507073112, 1, 2, 2305843009213693951, 1898874625507073112, 1563733883437364006, 1562651311446036838);
    lemma_square_mul_step(1898874625507073112, 2, 5, 2305843009213693951, 1562651311446036838, 1058996259245209406, 210466367062535138, 173320231403779888, 1480296248433951968);
    lemma_square_step(1898874625507073112, 5, 10, 2305843009213693951, 1480296248433951968, 950314906249784456, 1638367301230047368);
    lemma_square_step(1898874625507073112, 10, 20, 2305843009213693951, 1638367301230047368, 1164106750986127607, 2290701109993722167);
    lemma_square_mul_step(1898874625507073112, 20, 41, 2305843009213693951, 2290701109993722167, 2275658643870917725, 615537283535994414, 506898398585526318, 2305843009213693950);
}

/// `37^(p − 1)` mod p, the square of `37^((p − 1)/2)`.
proof fn lemma_power_full()
    ensures
        pow(2305843009213693950, 2) % 2305843009213693951 == 1,
{
    lemma_power_start(2305843009213693950, 2305843009213693951);
    lemma_square_mul_step(2305843009213693950, 0, 1, 2305843009213693951, 1, 0, 1, 0, 2305843009213693950);
    lemma_square_step(2305843009213693950, 1, 2, 2305843009213693951, 2305843009213693950, 2305843009213693949, 1);
}

/// The powers of 37 that Lucas's test asks for, modulo p.
proof fn lemma_certificate()
    ensures
        pow(37, 2305843009213693950) % 2305843009213693951 == 1,
        pow(37, 1152921504606846975) % 2305843009213693951 == 2305843009213693950,
        pow(37, 768614336404564650) % 2305843009213693951 == 1669582390241348315,
        pow(37, 461168601842738790) % 2305843009213693951 == 725554454131936870,
        pow(37, 329406144173384850) % 2305843009213693951 == 1165310750493918737,
        pow(37, 209622091746699450) % 2305843009213693951 == 2266698407988980144,
        pow(37, 177372539170284150) % 2305843009213693951 == 1032504562576723207,
        pow(37, 74382032555280450) % 2305843009213693951 == 484083891529811867,
        pow(37, 56240073395455950) % 2305843009213693951 == 1562651311446036838,
        pow(37, 37800705069076950) % 2305843009213693951 == 35184372088832,
        pow(37, 15270483504726450) % 2305843009213693951 == 1433721343585656393,
        pow(37, 6966293079195450) % 2305843009213693951 == 185945230422323302,
        pow(37, 1745528394559950) % 2305843009213693951 == 30210013857155493,
{
    lemma_power_root();
    lemma_power_over_3_5_11_31_61_1321();
    lemma_power_compose(37, 15, 372958222, 5594373330, 2305843009213693951, 616232432238528334);
    lemma_power_over_11_1321();
    lemma_power_compose(37, 5594373330, 28365, 158684399505450, 2305843009213693951, 1001450271706681694);
    lemma_power_over_1321();
    lemma_power_compose(37, 158684399505450, 11, 1745528394559950, 2305843009213693951, 2266076075764652044);
    lemma_power_over_11();
    lemma_power_compose(37, 158684399505450, 1321, 209622091746699450, 2305843009213693951, 2266076075764652044);
    lemma_power_over_3_5_31_61();
    lemma_power_compose(37, 5594373330, 14531, 81291838858230, 2305843009213693951, 1001450271706681694);
    lemma_power_over_3_61();
    lemma_power_compose(37, 81291838858230, 155, 12600235023025650, 2305843009213693951, 69443194934440108);
    lemma_power_over_61();
    lemma_power_compose(37, 12600235023025650, 3, 37800705069076950, 2305843009213693951, 444526824398904494);
    lemma_power_over_3();
    lemma_power_compose(37, 12600235023025650, 61, 768614336404564650, 2305843009213693951, 444526824398904494);
    lemma_power_over_5_31();
    lemma_power_compose(37, 81291838858230, 183, 14876406511056090, 2305843009213693951, 69443194934440108);
    lemma_power_over_31();
    lemma_power_compose(37, 14876406511056090, 5, 74382032555280450, 2305843009213693951, 2301721742830805320);
    lemma_power_over_5();
    lemma_power_compose(37, 14876406511056090, 31, 461168601842738790, 2305843009213693951, 2301721742830805320);
    lemma_power_over_2_7_13_41_151_331();
    lemma_power_compose(37, 15, 412171815, 6182577225, 2305843009213693951, 616232432238528334);
    lemma_power_over_7_13_331();
    lemma_power_compose(37, 6182577225, 12382, 76552671199950, 2305843009213693951, 1133352772447735726);
    lemma_power_over_331();
    lemma_power_compose(37, 76552671199950, 91, 6966293079195450, 2305843009213693951, 2050051711507624485);
    lemma_power_over_7_13();
    lemma_power_compose(37, 76552671199950, 331, 25338934167183450, 2305843009213693951, 2050051711507624485);
    lemma_power_over_13();
    lemma_power_compose(37, 25338934167183450, 7, 177372539170284150, 2305843009213693951, 223417494601207010);
    lemma_power_over_7();
    lemma_power_compose(37, 25338934167183450, 13, 329406144173384850, 2305843009213693951, 223417494601207010);
    lemma_power_over_2_41_151();
    lemma_power_compose(37, 6182577225, 30121, 186225408594225, 2305843009213693951, 1133352772447735726);
    lemma_power_over_151();
    lemma_power_compose(37, 186225408594225, 82, 15270483504726450, 2305843009213693951, 178484834314478121);
    lemma_power_over_2_41();
    lemma_power_compose(37, 186225408594225, 151, 28120036697727975, 2305843009213693951, 178484834314478121);
    lemma_power_over_41();
    lemma_power_compose(37, 28120036697727975, 2, 56240073395455950, 2305843009213693951, 1898874625507073112);
    lemma_power_over_2();
    lemma_power_compose(37, 28120036697727975, 41, 1152921504606846975, 2305843009213693951, 1898874625507073112);
    lemma_power_full();
    lemma_power_compose(37, 1152921504606846975, 2, 2305843009213693950, 2305843009213693951, 2305843009213693950);
}

} // verus!
