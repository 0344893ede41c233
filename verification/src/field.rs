//! Elements of the scalar field of BLS12-381.
//!
//! A [`Scalar`] holds the canonical representative of a field element as four
//! little-endian 64-bit limbs.  Its value is an integer in `[0, p)`; the field
//! operations are those of `ark_bls12_381::Fr`, reached through small trusted
//! wrappers whose contracts state the arithmetic modulo `p`.
use vstd::prelude::*;
use ark_bls12_381::Fr;
use ark_ff::{BigInteger256, Field, PrimeField, ToBytes, UniformRand};
use ark_std::rand::rngs::StdRng;

verus! {

/// The random number generator that supplies blinding randomness.
#[verifier::external_type_specification]
#[verifier::external_body]
pub struct ExStdRng(StdRng);

/// The order of the scalar field of BLS12-381.
pub open spec fn modulus() -> int {
    52435875175126190479447740508185965837690552500527637822603658699938581184513int
}

/// Field addition.
#[verifier::opaque]
pub open spec fn fadd(a: int, b: int) -> int {
    (a + b) % modulus()
}

/// Field subtraction.
#[verifier::opaque]
pub open spec fn fsub(a: int, b: int) -> int {
    (a - b) % modulus()
}

/// Field multiplication.
#[verifier::opaque]
pub open spec fn fmul(a: int, b: int) -> int {
    (a * b) % modulus()
}

/// Field negation.
#[verifier::opaque]
pub open spec fn fneg(a: int) -> int {
    (0 - a) % modulus()
}

/// `b` is a canonical element whose product with `a` is 1.
pub open spec fn inverts(a: int, b: int) -> bool {
    0 <= b < modulus() && (a * b) % modulus() == 1
}

/// The multiplicative inverse of `a`, and 0 for `a == 0`.
pub open spec fn finv(a: int) -> int {
    if a % modulus() == 0 {
        0
    } else {
        choose|b: int| #[trigger] inverts(a, b)
    }
}

/// `b` is the field inverse of `a` (0 being paired with 0).
pub open spec fn is_inverse(a: int, b: int) -> bool {
    b == finv(a) && (a % modulus() != 0 ==> (a * b) % modulus() == 1)
}

/// For `a ≠ 0`, `finv(a)` is indeed an inverse of `a`.
pub open spec fn inverse_known(a: int) -> bool {
    a % modulus() != 0 ==> fmul(finv(a), a) == 1
}

/// Field exponentiation.
pub open spec fn fpow(b: int, e: nat) -> int {
    vstd::arithmetic::power::pow(b, e) % modulus()
}

/// Little-endian bytes of a 64-bit word.
pub open spec fn u64_le_bytes(w: u64) -> Seq<u8> {
    Seq::new(8, |i: int| ((w as int / vstd::arithmetic::power::pow(256, i as nat)) % 256) as u8)
}

/// A field element, as the little-endian limbs of its canonical value.
#[derive(Clone, Copy, Debug, PartialEq, Eq)]
pub struct Scalar {
    pub limbs: [u64; 4],
}

impl Scalar {
    /// The integer value of the limbs.
    pub open spec fn val(self) -> int {
        self.limbs[0] as int + 0x1_0000_0000_0000_0000int * (self.limbs[1] as int
            + 0x1_0000_0000_0000_0000int * (self.limbs[2] as int + 0x1_0000_0000_0000_0000int
            * self.limbs[3] as int))
    }

    /// The limbs hold a canonical representative, below the modulus.
    pub open spec fn wf(self) -> bool {
        self.val() < modulus()
    }

    /// The little-endian byte encoding of the canonical value.
    pub open spec fn bytes(self) -> Seq<u8> {
        u64_le_bytes(self.limbs[0]) + u64_le_bytes(self.limbs[1]) + u64_le_bytes(self.limbs[2])
            + u64_le_bytes(self.limbs[3])
    }

    /// The field element `v`.
    pub fn from_u64(v: u64) -> (r: Scalar)
        ensures
            r.wf(),
            r.val() == v,
    {
        Scalar { limbs: [v, 0, 0, 0] }
    }

    /// The field element 0.
    pub fn zero() -> (r: Scalar)
        ensures
            r.wf(),
            r.val() == 0,
    {
        Scalar::from_u64(0)
    }

    /// The field element 1.
    pub fn one() -> (r: Scalar)
        ensures
            r.wf(),
            r.val() == 1,
    {
        Scalar::from_u64(1)
    }

    /// Whether two elements hold the same value.
    pub fn equals(&self, other: &Scalar) -> (r: bool)
        ensures
            r == (self.val() == other.val()),
    {
        let r = self.limbs[0] == other.limbs[0] && self.limbs[1] == other.limbs[1]
            && self.limbs[2] == other.limbs[2] && self.limbs[3] == other.limbs[3];
        proof {
            if !r && self.val() == other.val() {
                lemma_limbs_injective(*self, *other);
            }
        }
        r
    }

    /// Whether the element is 0.
    pub fn is_zero(&self) -> (r: bool)
        ensures
            r == (self.val() == 0),
    {
        self.equals(&Scalar::zero())
    }

    /// `self + other`.
    pub fn add(&self, other: &Scalar) -> (r: Scalar)
        requires
            self.wf(),
            other.wf(),
        ensures
            r.wf(),
            r.val() == fadd(self.val(), other.val()),
    {
        fr_add(*self, *other)
    }

    /// `self - other`.
    pub fn sub(&self, other: &Scalar) -> (r: Scalar)
        requires
            self.wf(),
            other.wf(),
        ensures
            r.wf(),
            r.val() == fsub(self.val(), other.val()),
    {
        fr_sub(*self, *other)
    }

    /// `self * other`.
    pub fn mul(&self, other: &Scalar) -> (r: Scalar)
        requires
            self.wf(),
            other.wf(),
        ensures
            r.wf(),
            r.val() == fmul(self.val(), other.val()),
    {
        fr_mul(*self, *other)
    }

    /// `-self`.
    pub fn neg(&self) -> (r: Scalar)
        requires
            self.wf(),
        ensures
            r.wf(),
            r.val() == fneg(self.val()),
    {
        fr_neg(*self)
    }

    /// `self^e`.
    pub fn pow(&self, e: u64) -> (r: Scalar)
        requires
            self.wf(),
        ensures
            r.wf(),
            r.val() == fpow(self.val(), e as nat),
    {
        fr_pow(*self, e)
    }

    /// The multiplicative inverse, `None` for 0.
    pub fn inverse(&self) -> (r: Option<Scalar>)
        requires
            self.wf(),
        ensures
            r is None <==> self.val() == 0,
            r matches Some(y) ==> y.wf() && is_inverse(self.val(), y.val()),
    {
        fr_inverse(*self)
    }

    /// The multiplicative inverse, and 0 for 0.
    pub fn inverse_or_zero(&self) -> (r: Scalar)
        requires
            self.wf(),
        ensures
            r.wf(),
            is_inverse(self.val(), r.val()),
    {
        match fr_inverse(*self) {
            Some(y) => y,
            None => {
                proof {
                    assert(self.val() % modulus() == 0);
                }
                Scalar::zero()
            },
        }
    }

    /// The little-endian byte encoding of the element.
    pub fn to_bytes(&self) -> (r: Vec<u8>)
        requires
            self.wf(),
        ensures
            r@ == self.bytes(),
    {
        fr_to_bytes(*self)
    }

    /// A uniformly random field element.
    pub fn random(rng: &mut StdRng) -> (r: Scalar)
        ensures
            r.wf(),
    {
        fr_rand(rng)
    }
}

/// One more factor `b` raises the power by one.
pub proof fn lemma_fpow_step(b: int, k: nat)
    ensures
        fmul(fpow(b, k), b) == fpow(b, k + 1),
{
    reveal(fmul);
    vstd::arithmetic::div_mod::lemma_mul_mod_noop_left(
        vstd::arithmetic::power::pow(b, k),
        b,
        modulus(),
    );
    reveal(vstd::arithmetic::power::pow);
    assert(vstd::arithmetic::power::pow(b, k + 1) == b * vstd::arithmetic::power::pow(b, k));
    vstd::arithmetic::mul::lemma_mul_is_commutative(b, vstd::arithmetic::power::pow(b, k));
}

/// `b^e1 · b^e2 = b^(e1 + e2)`.
pub proof fn lemma_fpow_adds(b: int, e1: nat, e2: nat)
    ensures
        fmul(fpow(b, e1), fpow(b, e2)) == fpow(b, e1 + e2),
{
    reveal(fmul);
    let p = modulus();
    let x = vstd::arithmetic::power::pow(b, e1);
    let y = vstd::arithmetic::power::pow(b, e2);
    vstd::arithmetic::div_mod::lemma_mul_mod_noop(x, y, p);
    vstd::arithmetic::power::lemma_pow_adds(b, e1, e2);
}

/// `(b^e1)^e2 = b^(e1·e2)`.
pub proof fn lemma_fpow_multiplies(b: int, e1: nat, e2: nat)
    ensures
        fpow(fpow(b, e1), e2) == fpow(b, e1 * e2),
{
    let p = modulus();
    vstd::arithmetic::power::lemma_pow_mod_noop(vstd::arithmetic::power::pow(b, e1), e2, p);
    vstd::arithmetic::power::lemma_pow_multiplies(b, e1, e2);
}

/// Powers of `b` only depend on `b` modulo `p`.
pub proof fn lemma_fpow_mod(b: int, e: nat)
    ensures
        fpow(b % modulus(), e) == fpow(b, e),
{
    vstd::arithmetic::power::lemma_pow_mod_noop(b, e, modulus());
}

/// If `g^2 = w`, then `(g^r)^2 = w^r`.
pub proof fn lemma_square_of_power(g: int, w: int, r: nat)
    requires
        fpow(g, 2) == fpow(w, 1),
    ensures
        fmul(fpow(g, r), fpow(g, r)) == fpow(w, r),
{
    lemma_fpow_adds(g, r, r);
    lemma_fpow_mod(w, r);
    vstd::arithmetic::power::lemma_pow1(w);
    assert(fpow(w, 1) == w % modulus());
    lemma_fpow_multiplies(g, 2, r);
    assert(2 * r == r + r);
}

/// A computed inverse shows that `finv(a)` inverts `a`.
pub proof fn lemma_inverse_known(a: int, b: int)
    requires
        is_inverse(a, b),
    ensures
        inverse_known(a),
{
    reveal(fmul);
    vstd::arithmetic::mul::lemma_mul_is_commutative(a, b);
}

/// A power of two has an inverse: `(p + 1)/2` inverts 2, and its powers
/// invert the powers of 2.
pub proof fn lemma_pow2_has_inverse(m: nat)
    requires
        crate::poly::is_pow2(m),
    ensures
        exists|b: int| #[trigger] inverts(m as int, b),
    decreases m,
{
    let p = modulus();
    if m == 1 {
        vstd::arithmetic::div_mod::lemma_small_mod(1, p as nat);
        assert(inverts(1, 1));
    } else {
        let h = m / 2;
        lemma_pow2_has_inverse(h);
        let b0 = choose|b: int| #[trigger] inverts(h as int, b);
        let half = (p + 1) / 2;
        assert(2 * half == p + 1);
        let w = (b0 * half) % p;
        vstd::arithmetic::div_mod::lemma_mod_bound(b0 * half, p);
        vstd::arithmetic::div_mod::lemma_mul_mod_noop_right(m as int, b0 * half, p);
        assert(m * (b0 * half) == (h * b0) * (p + 1)) by (nonlinear_arith)
            requires
                m == 2 * h,
                2 * half == p + 1,
        ;
        vstd::arithmetic::div_mod::lemma_mul_mod_noop(h * b0, p + 1, p);
        vstd::arithmetic::div_mod::lemma_mod_multiples_vanish(1, 1, p);
        vstd::arithmetic::div_mod::lemma_small_mod(1, p as nat);
        assert((p + 1) % p == 1);
        assert((h * b0) % p == 1);
        assert(1int * 1int == 1);
        assert(inverts(m as int, w));
    }
}

/// Every power of two below `p` has a known inverse.
pub proof fn lemma_pow2_inverse_known(m: nat)
    requires
        crate::poly::is_pow2(m),
    ensures
        inverse_known(m as int),
{
    reveal(fmul);
    lemma_pow2_has_inverse(m);
    if (m as int) % modulus() != 0 {
        let b = finv(m as int);
        assert(inverts(m as int, b));
        vstd::arithmetic::mul::lemma_mul_is_commutative(m as int, b);
    }
}

/// The field operations give canonical values.
pub proof fn lemma_ops_canonical(a: int, b: int)
    ensures
        0 <= fadd(a, b) < modulus(),
        0 <= fsub(a, b) < modulus(),
        0 <= fmul(a, b) < modulus(),
        0 <= fneg(a) < modulus(),
        0 <= fpow(a, 0) < modulus(),
{
    reveal(fadd);
    reveal(fsub);
    reveal(fmul);
    reveal(fneg);
    let p = modulus();
    vstd::arithmetic::div_mod::lemma_mod_bound(a + b, p);
    vstd::arithmetic::div_mod::lemma_mod_bound(a - b, p);
    vstd::arithmetic::div_mod::lemma_mod_bound(a * b, p);
    vstd::arithmetic::div_mod::lemma_mod_bound(0 - a, p);
    vstd::arithmetic::div_mod::lemma_mod_bound(vstd::arithmetic::power::pow(a, 0), p);
}

/// `(a·b)·c = a·(b·c)`.
pub proof fn lemma_fmul_assoc(a: int, b: int, c: int)
    ensures
        fmul(fmul(a, b), c) == fmul(a, fmul(b, c)),
{
    reveal(fmul);
    let p = modulus();
    vstd::arithmetic::div_mod::lemma_mul_mod_noop_left(a * b, c, p);
    vstd::arithmetic::div_mod::lemma_mul_mod_noop_right(a, b * c, p);
    vstd::arithmetic::mul::lemma_mul_is_associative(a, b, c);
}

/// `a·b = b·a`.
pub proof fn lemma_fmul_comm(a: int, b: int)
    ensures
        fmul(a, b) == fmul(b, a),
{
    reveal(fmul);
    vstd::arithmetic::mul::lemma_mul_is_commutative(a, b);
}

/// `a·1 = a` for a canonical `a`.
pub proof fn lemma_fmul_one(a: int)
    requires
        0 <= a < modulus(),
    ensures
        fmul(a, 1) == a,
        fmul(1, a) == a,
{
    reveal(fmul);
    vstd::arithmetic::div_mod::lemma_small_mod(a as nat, modulus() as nat);
}

/// `a − a = 0`.
pub proof fn lemma_fsub_self(a: int)
    ensures
        fsub(a, a) == 0,
{
    reveal(fsub);
}

/// `(−x)·y + x·y = 0`.
pub proof fn lemma_neg_mul_cancel(x: int, y: int)
    ensures
        fadd(fmul(fneg(x), y), fmul(x, y)) == 0,
{
    reveal(fadd);
    reveal(fmul);
    reveal(fneg);
    let p = modulus();
    vstd::arithmetic::div_mod::lemma_mul_mod_noop_left(0 - x, y, p);
    vstd::arithmetic::div_mod::lemma_add_mod_noop((0 - x) * y, x * y, p);
    assert((0 - x) * y + x * y == 0) by (nonlinear_arith);
}

/// `x·y ≡ −((−x)·y)`: `(−x)·y` is `−(x·y)` modulo `p`.
pub proof fn lemma_neg_mul(x: int, y: int)
    ensures
        fmul(fneg(x), y) == (0 - x * y) % modulus(),
{
    reveal(fmul);
    reveal(fneg);
    let p = modulus();
    vstd::arithmetic::div_mod::lemma_mul_mod_noop_left(0 - x, y, p);
    assert((0 - x) * y == 0 - x * y) by (nonlinear_arith);
}

/// `a·(b + c) = a·b + a·c`.
pub proof fn lemma_fmul_distrib(a: int, b: int, c: int)
    ensures
        fmul(a, fadd(b, c)) == fadd(fmul(a, b), fmul(a, c)),
{
    reveal(fmul);
    reveal(fadd);
    let p = modulus();
    vstd::arithmetic::div_mod::lemma_mul_mod_noop_right(a, b + c, p);
    vstd::arithmetic::div_mod::lemma_add_mod_noop(a * b, a * c, p);
    vstd::arithmetic::mul::lemma_mul_is_distributive_add(a, b, c);
}

/// `0 + x = x` and `x − x = 0` style facts for canonical `x`: `x + 0`,
/// `0 + x` and `x·0`.
pub proof fn lemma_zero_facts(x: int)
    requires
        0 <= x < modulus(),
    ensures
        fadd(0, x) == x,
        fadd(x, 0) == x,
        fmul(x, 0) == 0,
        fmul(0, x) == 0,
        fsub(fadd(0, x), x) == 0,
{
    reveal(fadd);
    reveal(fmul);
    reveal(fsub);
    vstd::arithmetic::div_mod::lemma_small_mod(x as nat, modulus() as nat);
}

/// Polynomial values are canonical.
pub proof fn lemma_poly_eval_canonical(c: Seq<int>, x: int)
    ensures
        0 <= crate::poly::poly_eval(c, x) < modulus(),
{
    if c.len() > 0 {
        vstd::arithmetic::div_mod::lemma_mod_bound(
            c[0] + x * crate::poly::poly_eval(c.drop_first(), x),
            modulus(),
        );
    }
}

/// Two scalars with the same value have the same limbs.
pub proof fn lemma_limbs_injective(a: Scalar, b: Scalar)
    requires
        a.val() == b.val(),
    ensures
        a.limbs == b.limbs,
{
    let w: int = 0x1_0000_0000_0000_0000int;
    let ra: int = a.limbs[1] + w * (a.limbs[2] + w * a.limbs[3]);
    let rb: int = b.limbs[1] + w * (b.limbs[2] + w * b.limbs[3]);
    lemma_digit_split(a.limbs[0] as int, ra, b.limbs[0] as int, rb, w);
    let sa: int = a.limbs[2] + w * a.limbs[3];
    let sb: int = b.limbs[2] + w * b.limbs[3];
    lemma_digit_split(a.limbs[1] as int, sa, b.limbs[1] as int, sb, w);
    lemma_digit_split(a.limbs[2] as int, a.limbs[3] as int, b.limbs[2] as int, b.limbs[3] as int, w);
    assert(a.limbs =~= b.limbs);
}

proof fn lemma_digit_split(d1: int, r1: int, d2: int, r2: int, w: int)
    requires
        0 <= d1 < w,
        0 <= d2 < w,
        0 <= r1,
        0 <= r2,
        d1 + w * r1 == d2 + w * r2,
    ensures
        d1 == d2,
        r1 == r2,
{
    assert(d1 == d2 && r1 == r2) by (nonlinear_arith)
        requires
            0 <= d1 < w,
            0 <= d2 < w,
            0 <= r1,
            0 <= r2,
            d1 + w * r1 == d2 + w * r2,
    ;
}

/// Field addition in `ark_bls12_381::Fr` (`Add`): the sum modulo `p`.
#[verifier::external_body]
fn fr_add(a: Scalar, b: Scalar) -> (r: Scalar)
    requires
        a.wf(),
        b.wf(),
    ensures
        r.wf(),
        r.val() == fadd(a.val(), b.val()),
{
    let x = Fr::from_repr(BigInteger256::new(a.limbs)).unwrap();
    let y = Fr::from_repr(BigInteger256::new(b.limbs)).unwrap();
    Scalar { limbs: (x + y).into_repr().0 }
}

/// Field subtraction in `ark_bls12_381::Fr` (`Sub`): the difference modulo `p`.
#[verifier::external_body]
fn fr_sub(a: Scalar, b: Scalar) -> (r: Scalar)
    requires
        a.wf(),
        b.wf(),
    ensures
        r.wf(),
        r.val() == fsub(a.val(), b.val()),
{
    let x = Fr::from_repr(BigInteger256::new(a.limbs)).unwrap();
    let y = Fr::from_repr(BigInteger256::new(b.limbs)).unwrap();
    Scalar { limbs: (x - y).into_repr().0 }
}

/// Field multiplication in `ark_bls12_381::Fr` (`Mul`): the product modulo `p`.
#[verifier::external_body]
fn fr_mul(a: Scalar, b: Scalar) -> (r: Scalar)
    requires
        a.wf(),
        b.wf(),
    ensures
        r.wf(),
        r.val() == fmul(a.val(), b.val()),
{
    let x = Fr::from_repr(BigInteger256::new(a.limbs)).unwrap();
    let y = Fr::from_repr(BigInteger256::new(b.limbs)).unwrap();
    Scalar { limbs: (x * y).into_repr().0 }
}

/// Field negation in `ark_bls12_381::Fr` (`Neg`): `-a` modulo `p`.
#[verifier::external_body]
fn fr_neg(a: Scalar) -> (r: Scalar)
    requires
        a.wf(),
    ensures
        r.wf(),
        r.val() == fneg(a.val()),
{
    let x = Fr::from_repr(BigInteger256::new(a.limbs)).unwrap();
    Scalar { limbs: (-x).into_repr().0 }
}

/// `Field::pow` of `ark_bls12_381::Fr` with a one-limb exponent: `a^e` modulo `p`.
#[verifier::external_body]
fn fr_pow(a: Scalar, e: u64) -> (r: Scalar)
    requires
        a.wf(),
    ensures
        r.wf(),
        r.val() == fpow(a.val(), e as nat),
{
    let x = Fr::from_repr(BigInteger256::new(a.limbs)).unwrap();
    Scalar { limbs: x.pow([e]).into_repr().0 }
}

/// `Field::inverse` of `ark_bls12_381::Fr`: `None` for 0, otherwise the
/// unique `y` with `a * y = 1` modulo `p`.
#[verifier::external_body]
fn fr_inverse(a: Scalar) -> (r: Option<Scalar>)
    requires
        a.wf(),
    ensures
        r is None <==> a.val() == 0,
        r matches Some(y) ==> y.wf() && is_inverse(a.val(), y.val()),
{
    let x = Fr::from_repr(BigInteger256::new(a.limbs)).unwrap();
    x.inverse().map(|y| Scalar { limbs: y.into_repr().0 })
}

/// `ToBytes::write` of `ark_bls12_381::Fr`: the 32 little-endian bytes of
/// the canonical value.
#[verifier::external_body]
fn fr_to_bytes(a: Scalar) -> (r: Vec<u8>)
    requires
        a.wf(),
    ensures
        r@ == a.bytes(),
{
    let x = Fr::from_repr(BigInteger256::new(a.limbs)).unwrap();
    let mut out = Vec::new();
    x.write(&mut out).unwrap();
    out
}

/// `UniformRand::rand` of `ark_bls12_381::Fr`: some field element drawn from
/// `rng`; which one depends on the generator's state.
#[verifier::external_body]
fn fr_rand(rng: &mut StdRng) -> (r: Scalar)
    ensures
        r.wf(),
{
    Scalar { limbs: Fr::rand(rng).into_repr().0 }
}

/// `ark_ff::batch_inversion` over `ark_bls12_381::Fr`: every element is
/// replaced by its inverse, and zeros stay zero.
#[verifier::external_body]
fn fr_batch_inversion(v: &mut Vec<Scalar>)
    requires
        forall|i: int| 0 <= i < old(v).len() ==> (#[trigger] old(v)[i]).wf(),
    ensures
        final(v).len() == old(v).len(),
        forall|i: int|
            0 <= i < final(v).len() ==> (#[trigger] final(v)[i]).wf() && is_inverse(
                old(v)[i].val(),
                final(v)[i].val(),
            ),
{
    let mut xs: Vec<Fr> = v.iter().map(|s| Fr::from_repr(BigInteger256::new(s.limbs)).unwrap()).collect();
    ark_ff::batch_inversion(&mut xs);
    *v = xs.iter().map(|x| Scalar { limbs: x.into_repr().0 }).collect();
}

/// Inverts every element of `v` in place (zeros stay zero).
pub fn batch_inversion(v: &mut Vec<Scalar>)
    requires
        forall|i: int| 0 <= i < old(v).len() ==> (#[trigger] old(v)[i]).wf(),
    ensures
        final(v).len() == old(v).len(),
        forall|i: int|
            0 <= i < final(v).len() ==> (#[trigger] final(v)[i]).wf() && is_inverse(
                old(v)[i].val(),
                final(v)[i].val(),
            ),
{
    fr_batch_inversion(v);
}

} // verus!
