//! Pedersen commitments `C = G^m · H^r` in the multiplicative group of GF(P).
//!
//! Messages live in GF(P) and combine modulo P; blindings are exponents and
//! combine modulo the group order P − 1.
use vstd::arithmetic::div_mod::*;
use vstd::arithmetic::power::*;
use vstd::prelude::*;

verus! {

const P: u64 = 1_000_000_007;

// The multiplicative group GF(P)* has order P-1 (Fermat's little theorem).
// Blindings are EXPONENTS — they live in Z/(P-1), not Z/P.
const GROUP_ORDER: u128 = 1_000_000_006;

/// The field modulus P.
pub open spec fn modulus() -> int {
    1_000_000_007
}

/// The order P − 1 of the multiplicative group, the modulus of blindings.
pub open spec fn group_order() -> int {
    1_000_000_006
}

/// The generator `G = 2` of the message part.
pub fn generator_g() -> (r: FieldElement)
    ensures
        r.val() == 2,
{
    FieldElement(2)
}

/// The generator `H = 3` of the blinding part.
pub fn generator_h() -> (r: FieldElement)
    ensures
        r.val() == 3,
{
    FieldElement(3)
}

// ── Scalar helpers: blinding arithmetic (mod GROUP_ORDER) ────────────────────
fn sc_add(a: u64, b: u64) -> (r: u64)
    ensures
        r == (a + b) % group_order(),
{
    ((a as u128 + b as u128) % GROUP_ORDER) as u64
}

fn sc_sub(a: u64, b: u64) -> (r: u64)
    requires
        b <= a + group_order(),
    ensures
        r == (a + group_order() - b) % group_order(),
{
    ((a as u128 + GROUP_ORDER - b as u128) % GROUP_ORDER) as u64
}

fn sc_mul(a: u64, b: u64) -> (r: u64)
    ensures
        r == (a * b) % group_order(),
{
    proof {
        assert(a * b <= u64::MAX * u64::MAX) by (nonlinear_arith)
            requires
                a <= u64::MAX,
                b <= u64::MAX,
        ;
    }
    ((a as u128 * b as u128) % GROUP_ORDER) as u64
}

fn mul128(a: u64, b: u64) -> (r: u64)
    ensures
        r == (a * b) % modulus(),
{
    proof {
        assert(a * b <= u64::MAX * u64::MAX) by (nonlinear_arith)
            requires
                a <= u64::MAX,
                b <= u64::MAX,
        ;
    }
    ((a as u128 * b as u128) % (P as u128)) as u64
}

/// `b^e = (b^⌊e/2⌋)² · b^(e mod 2)`.
proof fn lemma_pow_halve(b: int, e: nat)
    ensures
        pow(b, e) == pow(b * b, e / 2) * (if e % 2 == 1 {
            b
        } else {
            1
        }),
{
    let k = e / 2;
    lemma_pow_distributes(b, b, k);
    lemma_pow_adds(b, k, k);
    if e % 2 == 1 {
        lemma_pow_adds(b, 2 * k, 1);
        lemma_pow1(b);
    }
    assert(k + k == 2 * k);
    assert(e == 2 * k + e % 2);
}

// ── Field element: GF(P) ─────────────────────────────────────────────────────
#[derive(Debug, Clone, Copy, PartialEq, Eq, Structural)]
pub struct FieldElement(u64);

impl FieldElement {
    #[verifier::type_invariant]
    spec fn in_field(self) -> bool {
        self.0 < P
    }

    /// The value of the element, in `[0, P)`.
    pub closed spec fn val(self) -> int {
        self.0 as int
    }

    /// The element whose value is `v` (meaningful for `0 <= v < P`).
    pub closed spec fn from_val(v: int) -> Self {
        FieldElement(v as u64)
    }

    /// The element with value `v` has that value.
    pub proof fn lemma_from_val(v: int)
        requires
            0 <= v < modulus(),
        ensures
            Self::from_val(v).val() == v,
    {
    }

    /// **An element is determined by its value.**
    pub proof fn lemma_val_determines(a: Self, b: Self)
        ensures
            a.val() == b.val() <==> a == b,
    {
    }

    /// The element 0.
    pub fn zero() -> (r: Self)
        ensures
            r.val() == 0,
    {
        Self(0)
    }

    /// The element 1.
    pub fn one() -> (r: Self)
        ensures
            r.val() == 1,
    {
        Self(1)
    }

    pub fn new(v: u64) -> (r: Self)
        ensures
            r.val() == (v as int) % modulus(),
    {
        Self(v % P)
    }

    pub fn inner(self) -> (r: u64)
        ensures
            r == self.val(),
            r < modulus(),
    {
        proof {
            use_type_invariant(&self);
        }
        self.0
    }

    pub fn pow(self, e: u64) -> (r: Self)
        ensures
            r.val() == pow(self.val(), e as nat) % modulus(),
    {
        proof {
            use_type_invariant(&self);
        }
        let ghost b0 = self.0 as int;
        let ghost e0 = e as nat;
        let mut e = e;
        let mut base = self.0;
        let mut result = 1u64;
        proof {
            lemma_pow1(b0);
            assert(base as int == (base as int) % modulus());
        }
        while e > 0
            invariant
                base < P,
                result < P,
                (result * pow(base as int, e as nat)) % modulus() == pow(b0, e0) % modulus(),
            decreases e,
        {
            let ghost (r0, b1, e1) = (result as int, base as int, e as nat);
            proof {
                lemma_pow_halve(b1, e1);
                assert(e & 1 == e % 2) by (bit_vector);
                assert(e >> 1 == e / 2) by (bit_vector);
            }
            if e & 1 == 1 {
                result = mul128(result, base);
            }
            e >>= 1;
            base = mul128(base, base);
            proof {
                let k = e1 / 2;
                let odd = if e1 % 2 == 1 {
                    b1
                } else {
                    1
                };
                let pk = pow(b1 * b1, k);
                lemma_pow_mod_noop(b1 * b1, k, modulus());
                assert(result == (r0 * odd) % modulus());
                // (r0 * b1^e1) % P == ((r0 * odd) % P * (b1²)^k) % P
                assert(r0 * pow(b1, e1) == (r0 * odd) * pk) by (nonlinear_arith)
                    requires
                        pow(b1, e1) == pk * odd,
                ;
                lemma_mul_mod_noop_left(r0 * odd, pk, modulus());
                lemma_mul_mod_noop_right(result as int, pk, modulus());
                lemma_mul_mod_noop_right(result as int, pow(base as int, k), modulus());
            }
        }
        proof {
            assert(pow(base as int, 0) == 1) by {
                lemma_pow0(base as int);
            }
            assert(result as int == (result as int) % modulus());
        }
        Self(result)
    }

    fn inverse(self) -> (r: Self)
        requires
            self.val() != 0,
        ensures
            r.val() == pow(self.val(), (modulus() - 2) as nat) % modulus(),
    {
        self.pow(P - 2)  // Fermat: a^(p-2) = a^(-1) mod p

    }
}


impl std::ops::Add for FieldElement {
    type Output = Self;

    fn add(self, r: Self) -> (o: Self)
        ensures
            o.val() == (self.val() + r.val()) % modulus(),
    {
        proof {
            use_type_invariant(&self);
            use_type_invariant(&r);
        }
        let s = self.0 + r.0;
        Self(
            if s >= P {
                s - P
            } else {
                s
            },
        )
    }
}

impl vstd::std_specs::ops::AddSpecImpl for FieldElement {
    open spec fn obeys_add_spec() -> bool {
        true
    }

    open spec fn add_req(self, rhs: Self) -> bool {
        true
    }

    open spec fn add_spec(self, rhs: Self) -> Self {
        Self::from_val((self.val() + rhs.val()) % modulus())
    }
}

impl std::ops::Sub for FieldElement {
    type Output = Self;

    fn sub(self, r: Self) -> (o: Self)
        ensures
            o.val() == (self.val() - r.val()) % modulus(),
    {
        proof {
            use_type_invariant(&self);
            use_type_invariant(&r);
        }
        Self(
            if self.0 >= r.0 {
                self.0 - r.0
            } else {
                self.0 + P - r.0
            },
        )
    }
}

impl vstd::std_specs::ops::SubSpecImpl for FieldElement {
    open spec fn obeys_sub_spec() -> bool {
        true
    }

    open spec fn sub_req(self, rhs: Self) -> bool {
        true
    }

    open spec fn sub_spec(self, rhs: Self) -> Self {
        Self::from_val((self.val() - rhs.val()) % modulus())
    }
}

impl std::ops::Mul for FieldElement {
    type Output = Self;

    fn mul(self, r: Self) -> (o: Self)
        ensures
            o.val() == (self.val() * r.val()) % modulus(),
    {
        proof {
            use_type_invariant(&self);
            use_type_invariant(&r);
        }
        Self(mul128(self.0, r.0))
    }
}

impl vstd::std_specs::ops::MulSpecImpl for FieldElement {
    open spec fn obeys_mul_spec() -> bool {
        true
    }

    open spec fn mul_req(self, rhs: Self) -> bool {
        true
    }

    open spec fn mul_spec(self, rhs: Self) -> Self {
        Self::from_val((self.val() * rhs.val()) % modulus())
    }
}

impl std::ops::Neg for FieldElement {
    type Output = Self;

    fn neg(self) -> (o: Self)
        ensures
            o.val() == (0 - self.val()) % modulus(),
    {
        proof {
            use_type_invariant(&self);
        }
        if self.0 == 0 {
            self
        } else {
            Self(P - self.0)
        }
    }
}

impl vstd::std_specs::ops::NegSpecImpl for FieldElement {
    open spec fn obeys_neg_spec() -> bool {
        true
    }

    open spec fn neg_req(self) -> bool {
        true
    }

    open spec fn neg_spec(self) -> Self {
        Self::from_val((0 - self.val()) % modulus())
    }
}

impl std::ops::Div for FieldElement {
    type Output = Self;

    fn div(self, r: Self) -> (o: Self)
        ensures
            o.val() == (self.val() * (pow(r.val(), (modulus() - 2) as nat) % modulus())) % modulus(),
    {
        self * r.inverse()
    }
}

impl vstd::std_specs::ops::DivSpecImpl for FieldElement {
    open spec fn obeys_div_spec() -> bool {
        true
    }

    open spec fn div_req(self, rhs: Self) -> bool {
        rhs.val() != 0
    }

    open spec fn div_spec(self, rhs: Self) -> Self {
        Self::from_val((self.val() * (pow(rhs.val(), (modulus() - 2) as nat) % modulus())) % modulus())
    }
}

impl std::ops::AddAssign for FieldElement {
    fn add_assign(&mut self, r: Self)
        ensures
            final(self).val() == (old(self).val() + r.val()) % modulus(),
    {
        *self = *self + r;
    }
}

impl std::ops::MulAssign for FieldElement {
    fn mul_assign(&mut self, r: Self)
        ensures
            final(self).val() == (old(self).val() * r.val()) % modulus(),
    {
        *self = *self * r;
    }
}

/// `b^e mod m` by repeated squaring.
pub open spec fn pow_mod(b: nat, e: nat, m: nat) -> nat
    decreases e,
{
    if e == 0 {
        1nat % m
    } else {
        let h = pow_mod(b, e / 2, m);
        if e % 2 == 0 {
            (h * h) % m
        } else {
            ((h * h) % m * b) % m
        }
    }
}

proof fn lemma_pow_mod_is_pow(b: nat, e: nat, m: nat)
    requires
        m > 0,
    ensures
        pow_mod(b, e, m) == pow(b as int, e) % (m as int),
    decreases e,
{
    if e == 0 {
        lemma_pow0(b as int);
    } else {
        let k = e / 2;
        lemma_pow_mod_is_pow(b, k, m);
        let x = pow(b as int, k);
        lemma_pow_adds(b as int, k, k);
        assert(k + k == 2 * k);
        lemma_mul_mod_noop(x, x, m as int);
        if e % 2 == 0 {
            assert(e == k + k);
        } else {
            lemma_pow_adds(b as int, 2 * k, 1);
            lemma_pow1(b as int);
            assert(e == 2 * k + 1);
            lemma_mul_mod_noop_left(x * x, b as int, m as int);
        }
    }
}

#[verifier::rlimit(40)]
#[verifier::spinoff_prover]
proof fn lemma_two_has_order()
    ensures
        pow_mod(2, 1000000006, 1000000007) == 1,
{
    assert(pow_mod(2, 0, 1000000007) == 1);
    assert(pow_mod(2, 1, 1000000007) == ((pow_mod(2, 0, 1000000007) * pow_mod(2, 0, 1000000007)) % 1000000007 * 2) % 1000000007);
    assert(pow_mod(2, 1, 1000000007) == 2);
    assert(pow_mod(2, 3, 1000000007) == ((pow_mod(2, 1, 1000000007) * pow_mod(2, 1, 1000000007)) % 1000000007 * 2) % 1000000007);
    assert(pow_mod(2, 3, 1000000007) == 8);
    assert(pow_mod(2, 7, 1000000007) == ((pow_mod(2, 3, 1000000007) * pow_mod(2, 3, 1000000007)) % 1000000007 * 2) % 1000000007);
    assert(pow_mod(2, 7, 1000000007) == 128);
    assert(pow_mod(2, 14, 1000000007) == (pow_mod(2, 7, 1000000007) * pow_mod(2, 7, 1000000007)) % 1000000007);
    assert(pow_mod(2, 14, 1000000007) == 16384);
    assert(pow_mod(2, 29, 1000000007) == ((pow_mod(2, 14, 1000000007) * pow_mod(2, 14, 1000000007)) % 1000000007 * 2) % 1000000007);
    assert(pow_mod(2, 29, 1000000007) == 536870912);
    assert(pow_mod(2, 59, 1000000007) == ((pow_mod(2, 29, 1000000007) * pow_mod(2, 29, 1000000007)) % 1000000007 * 2) % 1000000007);
    assert(pow_mod(2, 59, 1000000007) == 268198252);
    assert(pow_mod(2, 119, 1000000007) == ((pow_mod(2, 59, 1000000007) * pow_mod(2, 59, 1000000007)) % 1000000007 * 2) % 1000000007);
    assert(pow_mod(2, 119, 1000000007) == 744686787);
    assert(pow_mod(2, 238, 1000000007) == (pow_mod(2, 119, 1000000007) * pow_mod(2, 119, 1000000007)) % 1000000007);
    assert(pow_mod(2, 238, 1000000007) == 850474527);
    assert(pow_mod(2, 476, 1000000007) == (pow_mod(2, 238, 1000000007) * pow_mod(2, 238, 1000000007)) % 1000000007);
    assert(pow_mod(2, 476, 1000000007) == 12725317);
    assert(pow_mod(2, 953, 1000000007) == ((pow_mod(2, 476, 1000000007) * pow_mod(2, 476, 1000000007)) % 1000000007 * 2) % 1000000007);
    assert(pow_mod(2, 953, 1000000007) == 383233909);
    assert(pow_mod(2, 1907, 1000000007) == ((pow_mod(2, 953, 1000000007) * pow_mod(2, 953, 1000000007)) % 1000000007 * 2) % 1000000007);
    assert(pow_mod(2, 1907, 1000000007) == 958685377);
    assert(pow_mod(2, 3814, 1000000007) == (pow_mod(2, 1907, 1000000007) * pow_mod(2, 1907, 1000000007)) % 1000000007);
    assert(pow_mod(2, 3814, 1000000007) == 640088614);
    assert(pow_mod(2, 7629, 1000000007) == ((pow_mod(2, 3814, 1000000007) * pow_mod(2, 3814, 1000000007)) % 1000000007 * 2) % 1000000007);
    assert(pow_mod(2, 7629, 1000000007) == 808893965);
    assert(pow_mod(2, 15258, 1000000007) == (pow_mod(2, 7629, 1000000007) * pow_mod(2, 7629, 1000000007)) % 1000000007);
    assert(pow_mod(2, 15258, 1000000007) == 33255131);
    assert(pow_mod(2, 30517, 1000000007) == ((pow_mod(2, 15258, 1000000007) * pow_mod(2, 15258, 1000000007)) % 1000000007 * 2) % 1000000007);
    assert(pow_mod(2, 30517, 1000000007) == 460171673);
    assert(pow_mod(2, 61035, 1000000007) == ((pow_mod(2, 30517, 1000000007) * pow_mod(2, 30517, 1000000007)) % 1000000007 * 2) % 1000000007);
    assert(pow_mod(2, 61035, 1000000007) == 298626320);
    assert(pow_mod(2, 122070, 1000000007) == (pow_mod(2, 61035, 1000000007) * pow_mod(2, 61035, 1000000007)) % 1000000007);
    assert(pow_mod(2, 122070, 1000000007) == 372498654);
    assert(pow_mod(2, 244140, 1000000007) == (pow_mod(2, 122070, 1000000007) * pow_mod(2, 122070, 1000000007)) % 1000000007);
    assert(pow_mod(2, 244140, 1000000007) == 260524994);
    assert(pow_mod(2, 488281, 1000000007) == ((pow_mod(2, 244140, 1000000007) * pow_mod(2, 244140, 1000000007)) % 1000000007 * 2) % 1000000007);
    assert(pow_mod(2, 488281, 1000000007) == 47174264);
    assert(pow_mod(2, 976562, 1000000007) == (pow_mod(2, 488281, 1000000007) * pow_mod(2, 488281, 1000000007)) % 1000000007);
    assert(pow_mod(2, 976562, 1000000007) == 168363819);
    assert(pow_mod(2, 1953125, 1000000007) == ((pow_mod(2, 976562, 1000000007) * pow_mod(2, 976562, 1000000007)) % 1000000007 * 2) % 1000000007);
    assert(pow_mod(2, 1953125, 1000000007) == 699680272);
    assert(pow_mod(2, 3906250, 1000000007) == (pow_mod(2, 1953125, 1000000007) * pow_mod(2, 1953125, 1000000007)) % 1000000007);
    assert(pow_mod(2, 3906250, 1000000007) == 599126631);
    assert(pow_mod(2, 7812500, 1000000007) == (pow_mod(2, 3906250, 1000000007) * pow_mod(2, 3906250, 1000000007)) % 1000000007);
    assert(pow_mod(2, 7812500, 1000000007) == 460741142);
    assert(pow_mod(2, 15625000, 1000000007) == (pow_mod(2, 7812500, 1000000007) * pow_mod(2, 7812500, 1000000007)) % 1000000007);
    assert(pow_mod(2, 15625000, 1000000007) == 445487378);
    assert(pow_mod(2, 31250000, 1000000007) == (pow_mod(2, 15625000, 1000000007) * pow_mod(2, 15625000, 1000000007)) % 1000000007);
    assert(pow_mod(2, 31250000, 1000000007) == 568101870);
    assert(pow_mod(2, 62500000, 1000000007) == (pow_mod(2, 31250000, 1000000007) * pow_mod(2, 31250000, 1000000007)) % 1000000007);
    assert(pow_mod(2, 62500000, 1000000007) == 438318776);
    assert(pow_mod(2, 125000000, 1000000007) == (pow_mod(2, 62500000, 1000000007) * pow_mod(2, 62500000, 1000000007)) % 1000000007);
    assert(pow_mod(2, 125000000, 1000000007) == 49274740);
    assert(pow_mod(2, 250000001, 1000000007) == ((pow_mod(2, 125000000, 1000000007) * pow_mod(2, 125000000, 1000000007)) % 1000000007 * 2) % 1000000007);
    assert(pow_mod(2, 250000001, 1000000007) == 970143207);
    assert(pow_mod(2, 500000003, 1000000007) == ((pow_mod(2, 250000001, 1000000007) * pow_mod(2, 250000001, 1000000007)) % 1000000007 * 2) % 1000000007);
    assert(pow_mod(2, 500000003, 1000000007) == 1);
    assert(pow_mod(2, 1000000006, 1000000007) == (pow_mod(2, 500000003, 1000000007) * pow_mod(2, 500000003, 1000000007)) % 1000000007);
    assert(pow_mod(2, 1000000006, 1000000007) == 1);
}

#[verifier::rlimit(40)]
#[verifier::spinoff_prover]
proof fn lemma_three_has_order()
    ensures
        pow_mod(3, 1000000006, 1000000007) == 1,
{
    assert(pow_mod(3, 0, 1000000007) == 1);
    assert(pow_mod(3, 1, 1000000007) == ((pow_mod(3, 0, 1000000007) * pow_mod(3, 0, 1000000007)) % 1000000007 * 3) % 1000000007);
    assert(pow_mod(3, 1, 1000000007) == 3);
    assert(pow_mod(3, 3, 1000000007) == ((pow_mod(3, 1, 1000000007) * pow_mod(3, 1, 1000000007)) % 1000000007 * 3) % 1000000007);
    assert(pow_mod(3, 3, 1000000007) == 27);
    assert(pow_mod(3, 7, 1000000007) == ((pow_mod(3, 3, 1000000007) * pow_mod(3, 3, 1000000007)) % 1000000007 * 3) % 1000000007);
    assert(pow_mod(3, 7, 1000000007) == 2187);
    assert(pow_mod(3, 14, 1000000007) == (pow_mod(3, 7, 1000000007) * pow_mod(3, 7, 1000000007)) % 1000000007);
    assert(pow_mod(3, 14, 1000000007) == 4782969);
    assert(pow_mod(3, 29, 1000000007) == ((pow_mod(3, 14, 1000000007) * pow_mod(3, 14, 1000000007)) % 1000000007 * 3) % 1000000007);
    assert(pow_mod(3, 29, 1000000007) == 376884473);
    assert(pow_mod(3, 59, 1000000007) == ((pow_mod(3, 29, 1000000007) * pow_mod(3, 29, 1000000007)) % 1000000007 * 3) % 1000000007);
    assert(pow_mod(3, 59, 1000000007) == 982583189);
    assert(pow_mod(3, 119, 1000000007) == ((pow_mod(3, 59, 1000000007) * pow_mod(3, 59, 1000000007)) % 1000000007 * 3) % 1000000007);
    assert(pow_mod(3, 119, 1000000007) == 641365120);
    assert(pow_mod(3, 238, 1000000007) == (pow_mod(3, 119, 1000000007) * pow_mod(3, 119, 1000000007)) % 1000000007);
    assert(pow_mod(3, 238, 1000000007) == 273169902);
    assert(pow_mod(3, 476, 1000000007) == (pow_mod(3, 238, 1000000007) * pow_mod(3, 238, 1000000007)) % 1000000007);
    assert(pow_mod(3, 476, 1000000007) == 836337046);
    assert(pow_mod(3, 953, 1000000007) == ((pow_mod(3, 476, 1000000007) * pow_mod(3, 476, 1000000007)) % 1000000007 * 3) % 1000000007);
    assert(pow_mod(3, 953, 1000000007) == 847365712);
    assert(pow_mod(3, 1907, 1000000007) == ((pow_mod(3, 953, 1000000007) * pow_mod(3, 953, 1000000007)) % 1000000007 * 3) % 1000000007);
    assert(pow_mod(3, 1907, 1000000007) == 541199294);
    assert(pow_mod(3, 3814, 1000000007) == (pow_mod(3, 1907, 1000000007) * pow_mod(3, 1907, 1000000007)) % 1000000007);
    assert(pow_mod(3, 3814, 1000000007) == 775821725);
    assert(pow_mod(3, 7629, 1000000007) == ((pow_mod(3, 3814, 1000000007) * pow_mod(3, 3814, 1000000007)) % 1000000007 * 3) % 1000000007);
    assert(pow_mod(3, 7629, 1000000007) == 306040637);
    assert(pow_mod(3, 15258, 1000000007) == (pow_mod(3, 7629, 1000000007) * pow_mod(3, 7629, 1000000007)) % 1000000007);
    assert(pow_mod(3, 15258, 1000000007) == 839739679);
    assert(pow_mod(3, 30517, 1000000007) == ((pow_mod(3, 15258, 1000000007) * pow_mod(3, 15258, 1000000007)) % 1000000007 * 3) % 1000000007);
    assert(pow_mod(3, 30517, 1000000007) == 652651933);
    assert(pow_mod(3, 61035, 1000000007) == ((pow_mod(3, 30517, 1000000007) * pow_mod(3, 30517, 1000000007)) % 1000000007 * 3) % 1000000007);
    assert(pow_mod(3, 61035, 1000000007) == 864071);
    assert(pow_mod(3, 122070, 1000000007) == (pow_mod(3, 61035, 1000000007) * pow_mod(3, 61035, 1000000007)) % 1000000007);
    assert(pow_mod(3, 122070, 1000000007) == 618687819);
    assert(pow_mod(3, 244140, 1000000007) == (pow_mod(3, 122070, 1000000007) * pow_mod(3, 122070, 1000000007)) % 1000000007);
    assert(pow_mod(3, 244140, 1000000007) == 699554463);
    assert(pow_mod(3, 488281, 1000000007) == ((pow_mod(3, 244140, 1000000007) * pow_mod(3, 244140, 1000000007)) % 1000000007 * 3) % 1000000007);
    assert(pow_mod(3, 488281, 1000000007) == 832749804);
    assert(pow_mod(3, 976562, 1000000007) == (pow_mod(3, 488281, 1000000007) * pow_mod(3, 488281, 1000000007)) % 1000000007);
    assert(pow_mod(3, 976562, 1000000007) == 207732799);
    assert(pow_mod(3, 1953125, 1000000007) == ((pow_mod(3, 976562, 1000000007) * pow_mod(3, 976562, 1000000007)) % 1000000007 * 3) % 1000000007);
    assert(pow_mod(3, 1953125, 1000000007) == 434911981);
    assert(pow_mod(3, 3906250, 1000000007) == (pow_mod(3, 1953125, 1000000007) * pow_mod(3, 1953125, 1000000007)) % 1000000007);
    assert(pow_mod(3, 3906250, 1000000007) == 893305358);
    assert(pow_mod(3, 7812500, 1000000007) == (pow_mod(3, 3906250, 1000000007) * pow_mod(3, 3906250, 1000000007)) % 1000000007);
    assert(pow_mod(3, 7812500, 1000000007) == 45546965);
    assert(pow_mod(3, 15625000, 1000000007) == (pow_mod(3, 7812500, 1000000007) * pow_mod(3, 7812500, 1000000007)) % 1000000007);
    assert(pow_mod(3, 15625000, 1000000007) == 6189543);
    assert(pow_mod(3, 31250000, 1000000007) == (pow_mod(3, 15625000, 1000000007) * pow_mod(3, 15625000, 1000000007)) % 1000000007);
    assert(pow_mod(3, 31250000, 1000000007) == 442280679);
    assert(pow_mod(3, 62500000, 1000000007) == (pow_mod(3, 31250000, 1000000007) * pow_mod(3, 31250000, 1000000007)) % 1000000007);
    assert(pow_mod(3, 62500000, 1000000007) == 647415662);
    assert(pow_mod(3, 125000000, 1000000007) == (pow_mod(3, 62500000, 1000000007) * pow_mod(3, 62500000, 1000000007)) % 1000000007);
    assert(pow_mod(3, 125000000, 1000000007) == 468868992);
    assert(pow_mod(3, 250000001, 1000000007) == ((pow_mod(3, 125000000, 1000000007) * pow_mod(3, 125000000, 1000000007)) % 1000000007 * 3) % 1000000007);
    assert(pow_mod(3, 250000001, 1000000007) == 360687462);
    assert(pow_mod(3, 500000003, 1000000007) == ((pow_mod(3, 250000001, 1000000007) * pow_mod(3, 250000001, 1000000007)) % 1000000007 * 3) % 1000000007);
    assert(pow_mod(3, 500000003, 1000000007) == 1);
    assert(pow_mod(3, 1000000006, 1000000007) == (pow_mod(3, 500000003, 1000000007) * pow_mod(3, 500000003, 1000000007)) % 1000000007);
    assert(pow_mod(3, 1000000006, 1000000007) == 1);
}

/// `2^(P−1) ≡ 1` and `3^(P−1) ≡ 1 (mod P)`.
pub proof fn lemma_generators_have_order()
    ensures
        pow(2, group_order() as nat) % modulus() == 1,
        pow(3, group_order() as nat) % modulus() == 1,
{
    lemma_two_has_order();
    lemma_three_has_order();
    lemma_pow_mod_is_pow(2, 1000000006, 1000000007);
    lemma_pow_mod_is_pow(3, 1000000006, 1000000007);
}

/// An exponent of a generator matters only modulo the group order.
proof fn lemma_reduce_exponent(g: int, a: nat)
    requires
        g == 2 || g == 3,
    ensures
        pow(g, a) % modulus() == pow(g, a % (group_order() as nat)) % modulus(),
{
    lemma_generators_have_order();
    let go = group_order() as nat;
    let q = a / go;
    let r = a % go;
    lemma_fundamental_div_mod(a as int, go as int);
    assert(a == go * q + r);
    lemma_pow_adds(g, go * q, r);
    lemma_pow_multiplies(g, go, q);
    let big = pow(g, go);
    lemma_pow_mod_noop(big, q, modulus());
    lemma1_pow(q);
    assert(pow(big % modulus(), q) == 1);
    lemma_mul_mod_noop_left(pow(big, q), pow(g, r), modulus());
    assert(1int % modulus() == 1);
}

/// The value of the commitment to message `m` with blinding `r`: `2^m · 3^r mod P`.
pub open spec fn commit_value(m: nat, r: nat) -> int {
    (pow(2, m) * pow(3, r)) % modulus()
}

proof fn lemma_pow_nonneg(g: int, e: nat)
    requires
        g > 0,
    ensures
        pow(g, e) > 0,
{
    lemma_pow_positive(g, e);
}

/// Commitments multiply by adding exponents.
proof fn lemma_commit_mul(m1: nat, r1: nat, m2: nat, r2: nat)
    ensures
        (commit_value(m1, r1) * commit_value(m2, r2)) % modulus() == commit_value(m1 + m2, r1 + r2),
{
    let a = pow(2, m1);
    let b = pow(3, r1);
    let c = pow(2, m2);
    let d = pow(3, r2);
    lemma_pow_nonneg(2, m1);
    lemma_pow_nonneg(3, r1);
    lemma_pow_nonneg(2, m2);
    lemma_pow_nonneg(3, r2);
    lemma_pow_adds(2, m1, m2);
    lemma_pow_adds(3, r1, r2);
    lemma_mul_mod_noop(a * b, c * d, modulus());
    assert((a * b) * (c * d) == (a * c) * (b * d)) by (nonlinear_arith);
    assert(a * b >= 0) by (nonlinear_arith)
        requires
            a > 0,
            b > 0,
    ;
    assert(c * d >= 0) by (nonlinear_arith)
        requires
            c > 0,
            d > 0,
    ;
}

/// Exponents of a commitment matter only modulo the group order.
proof fn lemma_commit_reduce(m: nat, r: nat, m2: nat, r2: nat)
    requires
        m % (group_order() as nat) == m2 % (group_order() as nat),
        r % (group_order() as nat) == r2 % (group_order() as nat),
    ensures
        commit_value(m, r) == commit_value(m2, r2),
{
    lemma_reduce_exponent(2, m);
    lemma_reduce_exponent(2, m2);
    lemma_reduce_exponent(3, r);
    lemma_reduce_exponent(3, r2);
    lemma_mul_mod_noop(pow(2, m), pow(3, r), modulus());
    lemma_mul_mod_noop(pow(2, m2), pow(3, r2), modulus());
}

/// Raising a commitment to a power multiplies its exponents.
proof fn lemma_commit_pow(m: nat, r: nat, k: nat)
    ensures
        pow(commit_value(m, r), k) % modulus() == commit_value(m * k, r * k),
{
    let a = pow(2, m);
    let b = pow(3, r);
    lemma_pow_nonneg(2, m);
    lemma_pow_nonneg(3, r);
    lemma_pow_mod_noop(a * b, k, modulus());
    lemma_pow_distributes(a, b, k);
    lemma_pow_multiplies(2, m, k);
    lemma_pow_multiplies(3, r, k);
    assert(a * b >= 0) by (nonlinear_arith)
        requires
            a > 0,
            b > 0,
    ;
}

#[derive(Debug, Clone, Copy, PartialEq, Eq, Structural)]
pub struct Commitment(pub FieldElement);

#[derive(Debug, Clone, Copy)]
pub struct Opening {
    pub message: FieldElement,  // m — the secret value
    pub blinding: FieldElement,  // r — the random mask (an exponent, lives in Z/(P-1))
}

/// `o` opens `c`: `c = G^m · H^r` for the message and blinding of `o`.
pub open spec fn opens(c: Commitment, o: Opening) -> bool {
    c.0.val() == commit_value(o.message.val() as nat, o.blinding.val() as nat)
}

/// The product modulo P of the values of a sequence of commitments.
pub open spec fn product_value(cs: Seq<Commitment>) -> int
    decreases cs.len(),
{
    if cs.len() == 0 {
        1
    } else {
        (product_value(cs.drop_last()) * cs.last().0.val()) % modulus()
    }
}

fn fold_product(cs: &[Commitment]) -> (r: FieldElement)
    ensures
        r.val() == product_value(cs@),
{
    let mut acc = FieldElement::one();
    let mut i: usize = 0;
    while i < cs.len()
        invariant
            i <= cs@.len(),
            acc.val() == product_value(cs@.subrange(0, i as int)),
        decreases cs@.len() - i,
    {
        let ghost before = acc;
        acc = acc * cs[i].0;
        proof {
            assert(cs@.subrange(0, i + 1).drop_last() =~= cs@.subrange(0, i as int));
        }
        i = i + 1;
    }
    proof {
        assert(cs@.subrange(0, cs@.len() as int) =~= cs@);
    }
    acc
}

pub struct Pedersen;

impl Pedersen {
    /// C = G^m * H^r
    pub fn commit(m: FieldElement, r: FieldElement) -> (res: (Commitment, Opening))
        ensures
            res.0.0.val() == commit_value(m.val() as nat, r.val() as nat),
            res.1.message == m,
            res.1.blinding == r,
    {
        let gm = generator_g().pow(m.inner());
        let hr = generator_h().pow(r.inner());
        let c = gm * hr;
        proof {
            lemma_pow_nonneg(2, m.val() as nat);
            lemma_pow_nonneg(3, r.val() as nat);
            lemma_mul_mod_noop(pow(2, m.val() as nat), pow(3, r.val() as nat), modulus());
        }
        (Commitment(c), Opening { message: m, blinding: r })
    }

    /// Recompute C from the opening and compare.
    pub fn verify(c: &Commitment, o: &Opening) -> (r: bool)
        ensures
            r == opens(*c, *o),
    {
        let (recomputed, _) = Self::commit(o.message, o.blinding);
        recomputed == *c
    }

    /// The message of `o` when it opens `c`.
    pub fn open(c: &Commitment, o: &Opening) -> (r: Option<FieldElement>)
        ensures
            r == (if opens(*c, *o) {
                Some(o.message)
            } else {
                None
            }),
    {
        if Self::verify(c, o) {
            Some(o.message)
        } else {
            None
        }
    }

    // ── Homomorphic operations ────────────────────────────────────────────────
    // C1 * C2  =  G^(m1+m2) * H^(r1+r2)  — no secrets needed.
    pub fn add(c1: Commitment, c2: Commitment) -> (r: Commitment)
        ensures
            r.0.val() == (c1.0.val() * c2.0.val()) % modulus(),
    {
        Commitment(c1.0 * c2.0)
    }

    pub fn add_openings(o1: Opening, o2: Opening) -> (r: Opening)
        ensures
            r.message.val() == (o1.message.val() + o2.message.val()) % modulus(),
            r.blinding.val() == (o1.blinding.val() + o2.blinding.val()) % group_order(),
    {
        Opening {
            message: o1.message + o2.message,  // mod P
            blinding: FieldElement(sc_add(o1.blinding.0, o2.blinding.0)),  // mod P-1
        }
    }

    pub fn sub(c1: Commitment, c2: Commitment) -> (r: Commitment)
        requires
            c2.0.val() != 0,
        ensures
            r.0.val() == (c1.0.val() * (pow(c2.0.val(), (modulus() - 2) as nat)
                % modulus())) % modulus(),
    {
        Commitment(c1.0 * c2.0.inverse())
    }

    pub fn sub_openings(o1: Opening, o2: Opening) -> (r: Opening)
        ensures
            r.message.val() == (o1.message.val() - o2.message.val()) % modulus(),
            r.blinding.val() == (o1.blinding.val() + group_order() - o2.blinding.val())
                % group_order(),
    {
        proof {
            use_type_invariant(&o2.blinding);
        }
        Opening {
            message: o1.message - o2.message,  // mod P
            blinding: FieldElement(sc_sub(o1.blinding.0, o2.blinding.0)),  // mod P-1
        }
    }

    /// C^k  =  G^(k*m) * H^(k*r)
    pub fn scale(c: Commitment, k: FieldElement) -> (r: Commitment)
        ensures
            r.0.val() == pow(c.0.val(), k.val() as nat) % modulus(),
    {
        Commitment(c.0.pow(k.inner()))
    }

    pub fn scale_opening(o: Opening, k: FieldElement) -> (r: Opening)
        ensures
            r.message.val() == (o.message.val() * k.val()) % modulus(),
            r.blinding.val() == (o.blinding.val() * k.val()) % group_order(),
    {
        Opening {
            message: o.message * k,  // mod P
            blinding: FieldElement(sc_mul(o.blinding.0, k.0)),  // mod P-1
        }
    }

    /// For confidential transactions: combine two blindings correctly (mod P-1).
    /// Use this instead of FieldElement `+` when summing blindings in your application.
    pub fn add_blindings(r1: FieldElement, r2: FieldElement) -> (r: FieldElement)
        ensures
            r.val() == (r1.val() + r2.val()) % group_order(),
    {
        FieldElement(sc_add(r1.0, r2.0))
    }

    /// Confidential-tx check: product of input commitments == product of outputs.
    pub fn verify_sum(inputs: &[Commitment], outputs: &[Commitment]) -> (r: bool)
        ensures
            r == (product_value(inputs@) == product_value(outputs@)),
    {
        fold_product(inputs) == fold_product(outputs)
    }
}

/// A commitment is opened by the opening it was made with.
pub proof fn lemma_commit_opens(c: Commitment, o: Opening, m: FieldElement, r: FieldElement)
    requires
        c.0.val() == commit_value(m.val() as nat, r.val() as nat),
        o.message == m,
        o.blinding == r,
    ensures
        opens(c, o),
{
}

/// **Additive homomorphism**: the product of two commitments is opened by the sum
/// of their openings, as long as the messages do not wrap around P.
pub proof fn lemma_add_homomorphic(m1: nat, r1: nat, m2: nat, r2: nat)
    requires
        m1 + m2 < modulus(),
    ensures
        (commit_value(m1, r1) * commit_value(m2, r2)) % modulus() == commit_value(
            ((m1 + m2) as int % modulus()) as nat,
            ((r1 + r2) as int % group_order()) as nat,
        ),
{
    lemma_commit_mul(m1, r1, m2, r2);
    let go = group_order() as nat;
    lemma_mod_twice((r1 + r2) as int, go as int);
    lemma_small_mod(m1 + m2, modulus() as nat);
    lemma_commit_reduce(m1 + m2, r1 + r2, m1 + m2, ((r1 + r2) % go) as nat);
}

/// A commitment to valid exponents is never zero, so it has an inverse.
pub proof fn lemma_commit_nonzero(m: nat, r: nat)
    ensures
        commit_value(m, r) != 0,
{
    let go = group_order() as nat;
    let c = commit_value(m, r);
    lemma_commit_pow(m, r, go);
    // c^(P−1) ≡ commit(m(P−1), r(P−1)) ≡ commit(0, 0) = 1
    lemma_mod_multiples_basic(m as int, go as int);
    lemma_mod_multiples_basic(r as int, go as int);
    assert((m * go) % go == 0nat % go);
    assert((r * go) % go == 0nat % go);
    lemma_commit_reduce(m * go, r * go, 0, 0);
    lemma_pow0(2);
    lemma_pow0(3);
    if c == 0 {
        lemma0_pow(go);
    }
}

/// **Subtractive homomorphism**: dividing two commitments is opened by the
/// difference of their openings, as long as the messages do not wrap around P.
pub proof fn lemma_sub_homomorphic(m1: nat, r1: nat, m2: nat, r2: nat)
    requires
        m2 <= m1 < modulus(),
        r2 <= group_order(),
    ensures
        commit_value(m2, r2) != 0,
        (commit_value(m1, r1) * (pow(commit_value(m2, r2), (modulus() - 2) as nat)
            % modulus())) % modulus() == commit_value(
            ((m1 - m2) % modulus()) as nat,
            ((r1 + group_order() - r2) % group_order()) as nat,
        ),
{
    let go = group_order() as nat;
    let k = (modulus() - 2) as nat;
    lemma_commit_nonzero(m2, r2);
    lemma_commit_pow(m2, r2, k);
    let inv = pow(commit_value(m2, r2), k) % modulus();
    assert(inv == commit_value(m2 * k, r2 * k));
    lemma_commit_mul(m1, r1, m2 * k, r2 * k);
    // m1 + m2(P−2) = (m1 − m2) + m2(P−1)
    let dm = (m1 - m2) as nat;
    assert(m1 + m2 * k == dm + m2 * go) by (nonlinear_arith)
        requires
            dm == m1 - m2,
            k + 1 == go,
    ;
    lemma_mod_multiples_vanish(m2 as int, dm as int, go as int);
    assert(go * m2 == m2 * go) by (nonlinear_arith);
    // r1 + r2(P−2) = (r1 + (P−1) − r2) + (r2 − 1)(P−1)
    let dr = (r1 + go - r2) as nat;
    if r2 == 0 {
        assert(r1 + r2 * k == r1) by (nonlinear_arith)
            requires
                r2 == 0,
        ;
        lemma_mod_add_multiples_vanish(r1 as int, go as int);
    } else {
        let t = (r2 - 1) as nat;
        assert(r1 + r2 * k == dr + t * go) by (nonlinear_arith)
            requires
                dr == r1 + go - r2,
                k + 1 == go,
                t + 1 == r2,
        ;
        lemma_mod_multiples_vanish(t as int, dr as int, go as int);
        assert(go * t == t * go) by (nonlinear_arith);
    }
    lemma_mod_twice(dr as int, go as int);
    lemma_small_mod(dm, modulus() as nat);
    lemma_commit_reduce(m1 + m2 * k, r1 + r2 * k, dm, (dr % go) as nat);
}

/// **Scaling homomorphism**: a commitment raised to `k` is opened by the opening
/// scaled by `k`, as long as the scaled message does not wrap around P.
pub proof fn lemma_scale_homomorphic(m: nat, r: nat, k: nat)
    requires
        m * k < modulus(),
    ensures
        pow(commit_value(m, r), k) % modulus() == commit_value(
            ((m * k) as int % modulus()) as nat,
            ((r * k) as int % group_order()) as nat,
        ),
{
    let go = group_order() as nat;
    lemma_commit_pow(m, r, k);
    lemma_small_mod(m * k, modulus() as nat);
    lemma_mod_twice((r * k) as int, go as int);
    lemma_commit_reduce(m * k, r * k, m * k, ((r * k) % go) as nat);
}

/// **Balanced transaction**: an input committed with the sum of the outputs'
/// amounts and blindings balances against the two outputs.
pub proof fn lemma_balanced_transaction(
    cin: Commitment,
    cb: Commitment,
    cc: Commitment,
    mb: nat,
    rb: nat,
    mc: nat,
    rc: nat,
)
    requires
        mb + mc < modulus(),
        cin.0.val() == commit_value(mb + mc, ((rb + rc) as int % group_order()) as nat),
        cb.0.val() == commit_value(mb, rb),
        cc.0.val() == commit_value(mc, rc),
    ensures
        product_value(seq![cin]) == product_value(seq![cb, cc]),
{
    let go = group_order() as nat;
    let ins = seq![cin];
    let outs = seq![cb, cc];
    assert(ins.drop_last() =~= Seq::<Commitment>::empty());
    assert(outs.drop_last() =~= seq![cb]);
    assert(outs.drop_last().drop_last() =~= Seq::<Commitment>::empty());
    lemma_mod_bound(pow(2, mb + mc) * pow(3, ((rb + rc) as int % group_order()) as nat), modulus());
    lemma_mod_bound(pow(2, mb) * pow(3, rb), modulus());
    lemma_small_mod(cin.0.val() as nat, modulus() as nat);
    lemma_small_mod(cb.0.val() as nat, modulus() as nat);
    lemma_commit_mul(mb, rb, mc, rc);
    lemma_mod_twice((rb + rc) as int, go as int);
    lemma_commit_reduce(mb + mc, rb + rc, mb + mc, ((rb + rc) % go) as nat);
    assert(product_value(ins.drop_last()) == 1);
    assert(product_value(ins) == (1 * cin.0.val()) % modulus());
    assert(product_value(ins) == cin.0.val());
    assert(product_value(outs.drop_last()) == cb.0.val());
    assert(product_value(outs) == (cb.0.val() * cc.0.val()) % modulus());
}

/// **Scaling for all inputs**: raising a commitment to `k` gives the
/// commitment with message and blinding exponents `m·k` and `r·k`, each
/// reduced modulo the group order `P − 1`.
pub proof fn lemma_scale_exponents(m: nat, r: nat, k: nat)
    ensures
        pow(commit_value(m, r), k) % modulus() == commit_value(
            ((m * k) as int % group_order()) as nat,
            ((r * k) as int % group_order()) as nat,
        ),
{
    let go = group_order() as nat;
    lemma_commit_pow(m, r, k);
    lemma_mod_twice((m * k) as int, go as int);
    lemma_mod_twice((r * k) as int, go as int);
    lemma_commit_reduce(m * k, r * k, ((m * k) % go) as nat, ((r * k) % go) as nat);
}

/// Taking one commitment out of a product and multiplying it back in.
proof fn lemma_product_remove(cs: Seq<Commitment>, i: int)
    requires
        0 <= i < cs.len(),
    ensures
        product_value(cs) == (product_value(cs.remove(i)) * cs[i].0.val()) % modulus(),
    decreases cs.len(),
{
    let n = cs.len() as int;
    if i == n - 1 {
        assert(cs.remove(i) =~= cs.drop_last());
    } else {
        let d = cs.drop_last();
        lemma_product_remove(d, i);
        assert(cs.remove(i).drop_last() =~= d.remove(i));
        assert(cs.remove(i).last() == cs.last());
        assert(d[i] == cs[i]);
        let a = product_value(d.remove(i));
        let x = cs[i].0.val();
        let l = cs.last().0.val();
        // (((a·x) mod P)·l) mod P == (((a·l) mod P)·x) mod P
        lemma_mul_mod_noop_left(a * x, l, modulus());
        lemma_mul_mod_noop_left(a * l, x, modulus());
        assert((a * x) * l == (a * l) * x) by (nonlinear_arith);
    }
}

/// **The balance check ignores order**: two sequences of commitments that are
/// permutations of one another have the same product, so `verify_sum` gives
/// the same answer when either slice is permuted.
pub proof fn lemma_product_permutation(s1: Seq<Commitment>, s2: Seq<Commitment>)
    requires
        s1.to_multiset() == s2.to_multiset(),
    ensures
        product_value(s1) == product_value(s2),
    decreases s1.len(),
{
    broadcast use vstd::seq_lib::group_to_multiset_ensures;

    if s1.len() == 0 {
        assert(s2.to_multiset().len() == 0);
        assert(s2.len() == 0);
    } else {
        let n = s1.len() as int;
        let a = s1.last();
        assert(s1.remove(n - 1) =~= s1.drop_last());
        assert(s1[n - 1] == a);
        assert(s1.contains(a));
        assert(s2.to_multiset().count(a) > 0);
        assert(s2.contains(a));
        let i = choose|i: int| 0 <= i < s2.len() && s2[i] == a;
        assert(s1.drop_last().to_multiset() == s2.remove(i).to_multiset());
        lemma_product_permutation(s1.drop_last(), s2.remove(i));
        lemma_product_remove(s2, i);
    }
}

} // verus!
