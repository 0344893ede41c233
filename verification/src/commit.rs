//! KZG polynomial commitments (the Marlin variant of `ark_poly_commit`) on
//! BLS12-381, and the group operations that the verifier needs.
//!
//! Group elements are carried as their `ToBytes` encodings: a G1 or G2 point
//! as `x ‖ y ‖ infinity`, and a commitment as the encoding that the
//! Fiat–Shamir transcript absorbs (the point, a "shifted" flag, and the
//! shifted point, which is the zero point here since no degree bounds are
//! enforced).  Decoding reads the point from the front of such an encoding.
use vstd::prelude::*;
use crate::field::Scalar;
use crate::poly::{all_wf, vals, Poly};
use ark_bls12_381::{Bls12_381, Fr, G1Affine, G2Affine};
use ark_ec::msm::VariableBaseMSM;
use ark_ec::{AffineCurve, PairingEngine, ProjectiveCurve};
use ark_ff::{BigInteger256, FromBytes, PrimeField, ToBytes};
use ark_poly::univariate::DensePolynomial;
use ark_poly::UVPolynomial;
use ark_poly_commit::marlin_pc::{CommitterKey as ArkCommitterKey, MarlinKZG10, Randomness};
use ark_poly_commit::{LabeledPolynomial, PCCommitterKey, PolynomialCommitment};
use ark_std::rand::rngs::StdRng;

verus! {

/// The Marlin KZG scheme over BLS12-381 with dense polynomials.
type Kzg = MarlinKZG10<Bls12_381, DensePolynomial<Fr>>;

/// The committer key of the Marlin KZG scheme over BLS12-381, held opaque:
/// the library reads nothing inside it and only hands it back to `commit`
/// (the encodings of its powers are kept beside it in [`CommitterKey`]).
#[verifier::external_body]
pub struct ArkKey {
    inner: ArkCommitterKey<Bls12_381>,
}

/// Commitment randomness of the Marlin KZG scheme over BLS12-381, held
/// opaque: the library only carries it along with its commitment (it is
/// trivial, as no commitment here is hiding).
#[verifier::external_body]
pub struct Rand {
    inner: Randomness<Fr, DensePolynomial<Fr>>,
}

/// The byte strings of a list of byte vectors.
pub open spec fn byte_seqs(v: Seq<Vec<u8>>) -> Seq<Seq<u8>> {
    v.map_values(|b: Vec<u8>| b@)
}

/// A polynomial commitment, as the bytes the transcript absorbs.
#[derive(Clone, Debug, PartialEq, Eq)]
pub struct Commitment {
    pub bytes: Vec<u8>,
}

impl Commitment {
    /// A copy of the commitment.
    pub fn duplicate(&self) -> (r: Commitment)
        ensures
            r.bytes@ == self.bytes@,
    {
        let b = self.bytes.clone();
        assert(b@ =~= self.bytes@);
        Commitment { bytes: b }
    }
}

/// The key for committing to polynomials of degree up to its supported
/// degree, with the encodings of its powers `[τ^i]₁` of the G1 generator.
/// Only [`kzg_setup`] builds one, so the encodings are those of the key.
pub struct CommitterKey {
    key: ArkKey,
    powers: Vec<Vec<u8>>,
    degree: usize,
}

impl CommitterKey {
    /// The largest degree the key commits to.
    pub closed spec fn supported(&self) -> nat {
        self.degree as nat
    }

    /// The encodings of the key's powers `[τ^i]₁`.
    pub closed spec fn g1_powers(&self) -> Seq<Seq<u8>> {
        byte_seqs(self.powers@)
    }

    /// The largest degree the key commits to.
    pub fn supported_degree(&self) -> (r: usize)
        ensures
            r == self.supported(),
    {
        self.degree
    }
}

/// The parts of the KZG verifier key that the pairing check uses, as point
/// encodings: `[1]₁`, `[1]₂` and `[τ]₂`.
#[derive(Clone, Debug, PartialEq, Eq)]
pub struct VerifierKey {
    pub g: Vec<u8>,
    pub h: Vec<u8>,
    pub beta_h: Vec<u8>,
}

/// The encoding of `Σ scalars[i]·bases[i]` in G1, or `None` when some base
/// does not decode as a G1 point.
pub uninterp spec fn msm_point(bases: Seq<Seq<u8>>, scalars: Seq<int>) -> Option<Seq<u8>>;

/// The encoding of `α·h` in G2.
pub uninterp spec fn g2_mul_point(h: Seq<u8>, alpha: int) -> Seq<u8>;

/// The encoding of `a − b` in G2.
pub uninterp spec fn g2_sub_point(a: Seq<u8>, b: Seq<u8>) -> Seq<u8>;

/// The `ToBytes` encoding of the pairing `e(p, q)`, an element of the
/// target field Fq12 (its canonical coefficients, so two encodings are equal
/// exactly when the pairings are).
pub uninterp spec fn pairing_value(p: Seq<u8>, q: Seq<u8>) -> Seq<u8>;

/// The `ToBytes` encoding of the commitment that `MarlinKZG10::commit`
/// gives, with no degree bound and no hiding, to the dense polynomial with
/// coefficients `coeffs` under a committer key whose powers `[τ^i]₁` encode
/// as `powers`: the point `Σ coeffs[i]·[τ^i]₁`, a false "shifted" flag and
/// the zero point.
pub uninterp spec fn kzg_commitment(powers: Seq<Seq<u8>>, coeffs: Seq<int>) -> Seq<u8>;

/// Whether the bytes decode (`G1Affine::read`) to a point on the curve in
/// the prime-order subgroup of G1.
pub uninterp spec fn g1_in_group(b: Seq<u8>) -> bool;

/// Whether the bytes decode (`G2Affine::read`) to a point on the curve in
/// the prime-order subgroup of G2.
pub uninterp spec fn g2_in_group(b: Seq<u8>) -> bool;

/// `MarlinKZG10::setup(max_degree, None, rng)` followed by
/// `trim(&pp, max_degree, 1, None)`: random parameters; the committer key
/// supports exactly `max_degree` and carries the encodings of its powers
/// `[τ^i]₁`.  The verifier key's points are the points of G1 and G2 that
/// `setup` derives (random subgroup points `g`, `h` and `[τ]h`), so they
/// lie in their groups.
#[verifier::external_body]
pub(crate) fn kzg_setup(max_degree: usize, rng: &mut StdRng) -> (r: (CommitterKey, VerifierKey))
    requires
        max_degree >= 1,
    ensures
        r.0.supported() == max_degree,
        g1_in_group(r.1.g@),
        g2_in_group(r.1.h@),
        g2_in_group(r.1.beta_h@),
{
    let pp = Kzg::setup(max_degree, None, rng).unwrap();
    let (ck, vk) = Kzg::trim(&pp, max_degree, 1, None).unwrap();
    let (mut g, mut h, mut beta_h) = (vec![], vec![], vec![]);
    vk.vk.g.write(&mut g).unwrap();
    vk.vk.h.write(&mut h).unwrap();
    vk.vk.beta_h.write(&mut beta_h).unwrap();
    let powers = ck.powers.iter().map(|p| { let mut b = Vec::new(); p.write(&mut b).unwrap(); b }).collect();
    (CommitterKey { degree: max_degree, powers, key: ArkKey { inner: ck } }, VerifierKey { g, h, beta_h })
}

/// `MarlinKZG10::commit(ck, polys, None)` with no degree or hiding bounds:
/// one commitment (as its `ToBytes` encoding) and one randomness per
/// polynomial.  KZG10's `commit` is the MSM of the key's powers with the
/// coefficients, so each commitment is [`kzg_commitment`] of the powers and
/// the polynomial's coefficients, and its point (at the front of the
/// encoding) is a point of G1.  It fails only for a polynomial of degree
/// above the key's supported degree, which `requires` excludes.
#[verifier::external_body]
pub(crate) fn kzg_commit(ck: &CommitterKey, polys: &Vec<Poly>) -> (r: (Vec<Commitment>, Vec<Rand>))
    requires
        forall|i: int|
            0 <= i < polys.len() ==> (#[trigger] polys@[i]).wf() && polys@[i].len()
                <= ck.supported() + 1,
    ensures
        r.0.len() == polys.len(),
        r.1.len() == polys.len(),
        forall|i: int|
            0 <= i < polys.len() ==> (#[trigger] r.0@[i]).bytes@ == kzg_commitment(
                ck.g1_powers(),
                polys@[i].cv(),
            ),
        forall|i: int| 0 <= i < polys.len() ==> g1_in_group((#[trigger] r.0@[i]).bytes@),
{
    let lp: Vec<_> = polys.iter().map(|p| LabeledPolynomial::new(String::new(), DensePolynomial::from_coefficients_vec(p.coeffs.iter().map(|s| Fr::from_repr(BigInteger256::new(s.limbs)).unwrap()).collect()), None, None)).collect();
    let (cs, rs) = Kzg::commit(&ck.key.inner, lp.iter(), None).unwrap();
    (cs.iter().map(|c| { let mut b = Vec::new(); c.commitment().write(&mut b).unwrap(); Commitment { bytes: b } }).collect(), rs.into_iter().map(|r| Rand { inner: r }).collect())
}

/// `Clone::clone` of Marlin KZG commitment randomness.
#[verifier::external_body]
pub(crate) fn rand_clone(r: &Rand) -> Rand {
    Rand { inner: r.inner.clone() }
}

/// `VariableBaseMSM::multi_scalar_mul` over points decoded with
/// `G1Affine::read` and the scalars' canonical representations; the
/// resulting point is encoded with `ToBytes`.  Every point of G1 decodes,
/// and a combination of points of G1 is a point of G1.
#[verifier::external_body]
pub(crate) fn msm(bases: &Vec<Vec<u8>>, scalars: &Vec<Scalar>) -> (r: Option<Vec<u8>>)
    requires
        bases.len() == scalars.len(),
        all_wf(scalars@),
    ensures
        match r {
            Some(b) => msm_point(byte_seqs(bases@), vals(scalars@)) == Some(b@),
            None => msm_point(byte_seqs(bases@), vals(scalars@)) is None,
        },
        (forall|i: int| 0 <= i < bases.len() ==> #[trigger] g1_in_group(bases@[i]@)) ==> match r {
            Some(b) => g1_in_group(b@),
            None => false,
        },
{
    let pts: Option<Vec<G1Affine>> = bases.iter().map(|b| G1Affine::read(&b[..]).ok()).collect();
    let reprs: Vec<BigInteger256> = scalars.iter().map(|s| BigInteger256::new(s.limbs)).collect();
    pts.map(|p| { let mut out = Vec::new(); VariableBaseMSM::multi_scalar_mul(&p, &reprs).into_affine().write(&mut out).unwrap(); out })
}

/// `G1Affine::read`, then `is_on_curve` and
/// `is_in_correct_subgroup_assuming_on_curve`.
#[verifier::external_body]
pub(crate) fn g1_check(b: &Vec<u8>) -> (r: bool)
    ensures
        r == g1_in_group(b@),
{
    match G1Affine::read(&b[..]) {
        Ok(p) => p.is_on_curve() && p.is_in_correct_subgroup_assuming_on_curve(),
        Err(_) => false,
    }
}

/// `G2Affine::read`, then `is_on_curve` and
/// `is_in_correct_subgroup_assuming_on_curve`.
#[verifier::external_body]
pub(crate) fn g2_check(b: &Vec<u8>) -> (r: bool)
    ensures
        r == g2_in_group(b@),
{
    match G2Affine::read(&b[..]) {
        Ok(p) => p.is_on_curve() && p.is_in_correct_subgroup_assuming_on_curve(),
        Err(_) => false,
    }
}

/// `h.mul(α)` for the G2 point decoded with `G2Affine::read`, encoded with
/// `ToBytes`: a multiple of a point of G2 is a point of G2.
#[verifier::external_body]
pub(crate) fn g2_mul(h: &Vec<u8>, alpha: Scalar) -> (r: Vec<u8>)
    requires
        alpha.wf(),
        g2_in_group(h@),
    ensures
        r@ == g2_mul_point(h@, alpha.val()),
        g2_in_group(r@),
{
    let mut out = Vec::new();
    G2Affine::read(&h[..]).unwrap().mul(BigInteger256::new(alpha.limbs)).into_affine().write(&mut out).unwrap();
    out
}

/// `a − b` for the G2 points decoded with `G2Affine::read`, encoded with
/// `ToBytes`: a difference of points of G2 is a point of G2.
#[verifier::external_body]
pub(crate) fn g2_sub(a: &Vec<u8>, b: &Vec<u8>) -> (r: Vec<u8>)
    requires
        g2_in_group(a@),
        g2_in_group(b@),
    ensures
        r@ == g2_sub_point(a@, b@),
        g2_in_group(r@),
{
    let (pa, pb) = (G2Affine::read(&a[..]).unwrap(), G2Affine::read(&b[..]).unwrap());
    let mut out = Vec::new();
    (pa.into_projective() - pb.into_projective()).into_affine().write(&mut out).unwrap();
    out
}

/// `Bls12_381::pairing(p, q)` for the points decoded with `read`, encoded
/// with `ToBytes`.  `read` does not check that a point lies on the curve,
/// and the pairing of points off the curve can panic, so both must be
/// points of their groups.
#[verifier::external_body]
pub(crate) fn pairing(p: &Vec<u8>, q: &Vec<u8>) -> (r: Vec<u8>)
    requires
        g1_in_group(p@),
        g2_in_group(q@),
    ensures
        r@ == pairing_value(p@, q@),
{
    let mut out = Vec::new();
    Bls12_381::pairing(G1Affine::read(&p[..]).unwrap(), G2Affine::read(&q[..]).unwrap()).write(&mut out).unwrap();
    out
}

} // verus!
