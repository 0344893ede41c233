use pfr::field::Scalar;
use pfr::transcript::Transcript;
use pfr::{
    commit_statement, commit_statement_from_evals, prove, round_four, round_one, verify,
    PfrPublicKey, PfrStatement,
};

const ROW: [usize; 4] = [0, 1, 2, 0];
const COL: [usize; 4] = [1, 2, 3, 3];

#[test]
fn multiplicities_of_the_baseline_relation() {
    let pk = PfrPublicKey::setup(4, 4, 1, &mut ark_std::test_rng());
    let mults = pk.compute_multiplicities(&ROW, &COL);
    assert_eq!(mults, vec![6, 3, 5, 2]);
    // every pair contributes four table indices
    assert_eq!(mults.iter().sum::<u64>(), 4 * ROW.len() as u64);
}

#[test]
fn multiplicities_with_offset_two() {
    let pk = PfrPublicKey::setup(4, 4, 2, &mut ark_std::test_rng());
    // indices per pair (r, c, c−r−1, c−2): (0,2,1,0) (0,3,2,1) (1,3,1,1) (0,2,1,0)
    let mults = pk.compute_multiplicities(&[0, 0, 1, 0], &[2, 3, 3, 2]);
    assert_eq!(mults, vec![5, 6, 3, 2]);
    assert_eq!(mults.iter().sum::<u64>(), 16);
}

#[test]
fn setup_table_polynomial_and_domains() {
    let pk = PfrPublicKey::setup(4, 8, 1, &mut ark_std::test_rng());
    assert_eq!((pk.n, pk.m, pk.t), (4, 8, 1));
    assert_eq!(pk.h_domain.size(), 4);
    assert_eq!(pk.d_domain.size(), 8);
    assert_eq!(pk.k_domain.size(), 8);
    assert_eq!(pk.coset_domain.size(), 16);
    assert_eq!(pk.ck.supported_degree(), 2 * 8 + 3);
    for j in 0..4 {
        assert_eq!(pk.h_poly.evaluate(&pk.h_domain.element(j)), pk.d_domain.element(j));
    }
    // Δ² = ω
    let delta = pk.big_delta();
    assert_eq!(delta.mul(&delta), pk.h_domain.element(1));
    assert_eq!(pk.h_coset_evals.len(), 16);
    assert_eq!(pk.zkh_coset_evals.len(), 16);
}

#[test]
fn statement_from_evaluations_matches_indices() {
    let rng = &mut ark_std::test_rng();
    let pk = PfrPublicKey::setup(4, 4, 1, rng);
    let a = commit_statement(&pk, &ROW, &COL, rng, &mut None);
    let row_evals: Vec<Scalar> = ROW.iter().map(|&r| pk.h_domain.element(r)).collect();
    let col_evals: Vec<Scalar> = COL.iter().map(|&c| pk.h_domain.element(c)).collect();
    let b = commit_statement_from_evals(&pk, row_evals, col_evals, rng, &mut None);
    assert_eq!(a.row_comm, b.row_comm);
    assert_eq!(a.col_comm, b.col_comm);
    assert_eq!(a.rowcol_comm, b.rowcol_comm);
    for i in 0..4 {
        let ki = pk.k_domain.element(i);
        assert_eq!(a.row_poly.evaluate(&ki), pk.h_domain.element(ROW[i]));
        assert_eq!(a.col_poly.evaluate(&ki), pk.h_domain.element(COL[i]));
        assert_eq!(
            a.rowcol_poly.evaluate(&ki),
            pk.h_domain.element(ROW[i]).mul(&pk.h_domain.element(COL[i]))
        );
    }
}

#[test]
fn round4_opens_at_alpha() {
    let rng = &mut ark_std::test_rng();
    let pk = PfrPublicKey::setup(4, 4, 1, rng);
    let stmt = commit_statement(&pk, &ROW, &COL, rng, &mut None);
    let r1 = round_one(&pk, &ROW, &COL, &stmt, rng, &mut None);
    let alpha = Scalar::from_u64(11);
    let r4 = round_four(&pk, &r1, alpha);
    assert_eq!(r4.alpha, alpha);
    assert_eq!(r4.h_alpha, pk.h_poly.evaluate(&alpha));
    assert_eq!(r4.r_alpha, r1.polynomials[0].evaluate(&alpha));
    assert_eq!(r4.c_alpha, r1.polynomials[1].evaluate(&alpha));
    assert_eq!(r4.row_alpha, r1.polynomials[7].evaluate(&alpha));
}

/// The α at which the prover opens h is the α that the transcript of the
/// proof gives, as the verifier recomputes it.
#[test]
fn prover_opens_at_the_transcript_alpha() {
    let rng = &mut ark_std::test_rng();
    let pk = PfrPublicKey::setup(4, 4, 1, rng);
    let stmt = commit_statement(&pk, &ROW, &COL, rng, &mut None);
    let (proof, public_inputs) = prove(&pk, &ROW, &COL, &stmt, rng, &mut None);
    assert_eq!(public_inputs.row_comm, stmt.row_comm);
    assert_eq!(public_inputs.col_comm, stmt.col_comm);
    assert_eq!(public_inputs.rowcol_comm, stmt.rowcol_comm);
    assert_eq!(proof.f_comms.len(), 5);

    let mut fs = Transcript::new(pk.h_commitment.bytes.clone());
    let mut m1 = Vec::new();
    for c in [&proof.r_comm, &proof.c_comm, &proof.m_comm, &proof.s_comm, &proof.rowtilde_comm] {
        m1.extend_from_slice(&c.bytes);
    }
    fs.absorb(m1);
    let mut m2 = Vec::new();
    for c in proof.f_comms.iter() {
        m2.extend_from_slice(&c.bytes);
    }
    fs.absorb(m2);
    let mut m3 = proof.r_star_comm.bytes.clone();
    m3.extend_from_slice(&proof.q_comm.bytes);
    fs.absorb(m3);
    let alpha = fs.challenge();
    assert_eq!(proof.h_alpha, pk.h_poly.evaluate(&alpha));
}

#[test]
fn verify_rejects_a_tampered_opening() {
    let rng = &mut ark_std::test_rng();
    let pk = PfrPublicKey::setup(4, 4, 1, rng);
    let stmt = commit_statement(&pk, &ROW, &COL, rng, &mut None);
    let (mut proof, public_inputs) = prove(&pk, &ROW, &COL, &stmt, rng, &mut None);
    assert!(verify(&pk, &proof, &public_inputs.row_comm, &public_inputs.col_comm, &public_inputs.rowcol_comm, &mut None));
    proof.h_alpha = proof.h_alpha.add(&Scalar::one());
    assert!(!verify(&pk, &proof, &public_inputs.row_comm, &public_inputs.col_comm, &public_inputs.rowcol_comm, &mut None));
}

#[test]
fn verify_rejects_a_different_statement() {
    let rng = &mut ark_std::test_rng();
    let pk = PfrPublicKey::setup(4, 4, 1, rng);
    let stmt = commit_statement(&pk, &ROW, &COL, rng, &mut None);
    let other = commit_statement(&pk, &[0, 0, 1, 0], &[1, 2, 3, 3], rng, &mut None);
    let (proof, public_inputs) = prove(&pk, &ROW, &COL, &stmt, rng, &mut None);
    assert!(!verify(&pk, &proof, &other.row_comm, &public_inputs.col_comm, &public_inputs.rowcol_comm, &mut None));
}

#[test]
fn verify_rejects_undecodable_commitment() {
    let rng = &mut ark_std::test_rng();
    let pk = PfrPublicKey::setup(4, 4, 1, rng);
    let stmt = commit_statement(&pk, &ROW, &COL, rng, &mut None);
    let (mut proof, public_inputs) = prove(&pk, &ROW, &COL, &stmt, rng, &mut None);
    proof.q_comm.bytes = vec![0xff; 3];
    assert!(!verify(&pk, &proof, &public_inputs.row_comm, &public_inputs.col_comm, &public_inputs.rowcol_comm, &mut None));
}

#[test]
fn statement_from_existing_commitments_proves() {
    let rng = &mut ark_std::test_rng();
    let pk = PfrPublicKey::setup(4, 4, 1, rng);
    let s = commit_statement(&pk, &ROW, &COL, rng, &mut None);
    let stmt = PfrStatement::from_existing(
        s.row_poly,
        s.col_poly,
        s.rowcol_poly,
        s.row_comm,
        s.col_comm,
        s.rowcol_comm,
        s.row_rand,
        s.col_rand,
        s.rowcol_rand,
    );
    let (proof, pi) = prove(&pk, &ROW, &COL, &stmt, rng, &mut None);
    assert!(verify(&pk, &proof, &pi.row_comm, &pi.col_comm, &pi.rowcol_comm, &mut None));
}

#[test]
fn keys_shared_between_public_keys() {
    let rng = &mut ark_std::test_rng();
    let big = PfrPublicKey::setup(8, 8, 1, rng);
    let pk = PfrPublicKey::with_keys(big.ck, big.vk, 4, 4, 1, rng);
    assert_eq!(pk.ck.supported_degree(), 2 * 8 + 3);
    let stmt = commit_statement(&pk, &ROW, &COL, rng, &mut None);
    let (proof, pi) = prove(&pk, &ROW, &COL, &stmt, rng, &mut None);
    assert!(verify(&pk, &proof, &pi.row_comm, &pi.col_comm, &pi.rowcol_comm, &mut None));
}

#[test]
fn zkh_is_the_indicator_of_h_on_k() {
    let pk = PfrPublicKey::setup(4, 16, 1, &mut ark_std::test_rng());
    let z = pfr::types::zkh_polynomial(4, 16);
    for i in 0..16 {
        let x = pk.k_domain.element(i);
        if i % 4 == 0 {
            assert_eq!(x, pk.h_domain.element(i / 4));
            assert_eq!(z.evaluate(&x), Scalar::one());
        } else {
            assert_eq!(z.evaluate(&x), Scalar::zero());
        }
    }
    // κ^{m/2} = −1
    let kappa = pk.k_domain.element(1);
    let mut pw = Scalar::one();
    for _ in 0..8 {
        pw = pw.mul(&kappa);
    }
    assert_eq!(pw, Scalar::zero().sub(&Scalar::one()));
}

#[test]
fn verify_rejects_points_off_the_curve() {
    let rng = &mut ark_std::test_rng();
    let mut pk = PfrPublicKey::setup(4, 4, 1, rng);
    let stmt = commit_statement(&pk, &ROW, &COL, rng, &mut None);
    let (proof, pi) = prove(&pk, &ROW, &COL, &stmt, rng, &mut None);
    // [1]₂ replaced by the pair (0, 1), which is not a point of G2:
    // x = 0 (96 bytes), y = 1 (c0 = 1, c1 = 0), not at infinity.
    let mut h = vec![0u8; pk.vk.h.len()];
    h[96] = 1;
    pk.vk.h = h;
    assert!(!verify(&pk, &proof, &pi.row_comm, &pi.col_comm, &pi.rowcol_comm, &mut None));
}

#[test]
fn commitments_depend_only_on_the_polynomial() {
    let rng = &mut ark_std::test_rng();
    let pk = PfrPublicKey::setup(4, 4, 1, rng);
    let a = commit_statement(&pk, &ROW, &COL, rng, &mut None);
    let b = commit_statement(&pk, &ROW, &COL, rng, &mut None);
    assert_eq!(a.row_poly.coeffs, b.row_poly.coeffs);
    assert_eq!(a.row_comm, b.row_comm);
    // the key is the one that committed to h: same h, same commitment
    let pk2 = PfrPublicKey::with_keys(
        pk.ck,
        pk.vk.clone(),
        4,
        4,
        1,
        rng,
    );
    assert_eq!(pk2.h_commitment, pk.h_commitment);
}
