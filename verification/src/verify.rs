//! The PFR verifier.
//!
//! It replays the Fiat–Shamir transcript of the proof to recover β, η, α
//! and δ, builds the commitment `[y]₁` to the batched opening numerator as
//! one multi-scalar multiplication over the commitments of the proof, the
//! statement and the key, and checks the KZG pairing equation
//! `e([y]₁, [1]₂) = e([Q(τ)]₁, [τ − α]₂)`.
use vstd::prelude::*;
use crate::commit::{
    byte_seqs, g1_check, g1_in_group, g2_check, g2_in_group, g2_mul, g2_mul_point, g2_sub,
    g2_sub_point, msm, msm_point, pairing, pairing_value, Commitment,
};
use crate::counting::{
    counter_after_all, counter_view, lemma_after_all_concat, lemma_after_all_push, record_g2_scalarmul,
    record_msm_g1, record_pairing, Op, OpCounts,
};
use crate::field::{
    fadd, finv, fmul, fneg, fpow, fsub, inverse_known, lemma_fmul_assoc, lemma_fmul_comm, lemma_fmul_one,
    lemma_ops_canonical, modulus, Scalar,
};
use crate::poly::{all_wf, poly_eval, vals};
use crate::prover::{append_bytes, eta_powers};
use crate::transcript::Transcript;
use crate::types::{
    challenge_alpha, challenge_beta, challenge_delta, challenge_eta, round_four_message,
    round_one_message, round_three_message, round_two_message, transcript_seed, PfrProof,
    PfrPublicKey,
};

verus! {

/// The scalars of the η-batched linearised identity, one per entry of
/// [`lin_bases`], before the factor U(α):
///
///   η⁰·(β+R_α)·[F₁] − η⁰·[1]
/// + η¹·(β+C_α)·[F₂] − η¹·[1]
/// + η²·(β·Δ·R_α+C_α)·[F₃] − η²·Δ·R_α·[1]
/// + η³·(β·Δᵗ+C_α)·[F₄] − η³·Δᵗ·[1]
/// + η⁴·(β+h_α)·[F₅] + η⁴·z_{K∖H}(α)·[m]
/// + η⁵·R_α²·[1] − η⁵·[row]
/// + η⁶·C_α²·[1] − η⁶·[col]
/// + η⁷·[rowcol] − η⁷·row̃_α·[col]
/// + η⁸·[row̃] − η⁸·[row]
/// + η⁹·Σⱼ[Fⱼ] + η¹⁰·[S]
pub open spec fn lin_scalars(
    beta: int,
    eta: int,
    delta: int,
    delta_t: int,
    ra: int,
    ca: int,
    ha: int,
    rowa: int,
    zkh_a: int,
    k: nat,
) -> Seq<int> {
    lin_head_scalars(beta, eta, delta, delta_t, ra, ca, ha, rowa, zkh_a) + Seq::new(
        k,
        |j: int| fpow(eta, 9),
    ) + seq![fmul(fpow(eta, 9), eta)]
}

/// The scalars of the η⁰ … η⁸ terms of [`lin_scalars`], two per power.
pub open spec fn lin_head_scalars(
    beta: int,
    eta: int,
    delta: int,
    delta_t: int,
    ra: int,
    ca: int,
    ha: int,
    rowa: int,
    zkh_a: int,
) -> Seq<int> {
    seq![fmul(fpow(eta, 0), fadd(beta, ra)), fneg(fpow(eta, 0))]
        + seq![fmul(fpow(eta, 1), fadd(beta, ca)), fneg(fpow(eta, 1))]
        + seq![
        fmul(fpow(eta, 2), fadd(fmul(fmul(beta, delta), ra), ca)),
        fneg(fmul(fmul(fpow(eta, 2), delta), ra)),
    ] + seq![
        fmul(fpow(eta, 3), fadd(fmul(beta, delta_t), ca)),
        fneg(fmul(fpow(eta, 3), delta_t)),
    ] + seq![fmul(fpow(eta, 4), fadd(beta, ha)), fmul(fpow(eta, 4), zkh_a)] + seq![
        fmul(fmul(fpow(eta, 5), ra), ra),
        fneg(fpow(eta, 5)),
    ] + seq![fmul(fmul(fpow(eta, 6), ca), ca), fneg(fpow(eta, 6))] + seq![
        fpow(eta, 7),
        fneg(fmul(fpow(eta, 7), rowa)),
    ] + seq![fpow(eta, 8), fneg(fpow(eta, 8))]
}

/// The points of the η⁰ … η⁸ terms of [`lin_scalars`].
pub open spec fn lin_head_bases(
    pk: &PfrPublicKey,
    proof: &PfrProof,
    row: Seq<u8>,
    col: Seq<u8>,
    rowcol: Seq<u8>,
) -> Seq<Seq<u8>> {
    let g = pk.vk.g@;
    let f = proof.f_comms@;
    seq![f[0].bytes@, g] + seq![f[1].bytes@, g] + seq![f[2].bytes@, g] + seq![f[3].bytes@, g]
        + seq![f[4].bytes@, proof.m_comm.bytes@] + seq![g, row] + seq![g, col] + seq![rowcol, col]
        + seq![proof.rowtilde_comm.bytes@, row]
}

/// The points that [`lin_scalars`] multiply.
pub open spec fn lin_bases(
    pk: &PfrPublicKey,
    proof: &PfrProof,
    row: Seq<u8>,
    col: Seq<u8>,
    rowcol: Seq<u8>,
) -> Seq<Seq<u8>> {
    lin_head_bases(pk, proof, row, col, rowcol) + proof.f_comms@.map_values(
        |c: Commitment| c.bytes@,
    ) + seq![proof.s_comm.bytes@]
}

/// The bases of the verifier's MSM for `[y]₁`.
pub open spec fn verifier_bases(
    pk: &PfrPublicKey,
    proof: &PfrProof,
    row: Seq<u8>,
    col: Seq<u8>,
    rowcol: Seq<u8>,
) -> Seq<Seq<u8>> {
    let g = pk.vk.g@;
    lin_bases(pk, proof, row, col, rowcol) + seq![proof.r_star_comm.bytes@, proof.q_comm.bytes@]
        + seq![pk.h_commitment.bytes@, g] + seq![proof.r_comm.bytes@, g] + seq![
        proof.c_comm.bytes@,
        g,
    ] + seq![proof.rowtilde_comm.bytes@, g]
}

/// z_{K∖H}(α) = (n/m)·z_K(α)/z_H(α), with 1/0 read as 0.
pub open spec fn zkh_at_alpha(pk: &PfrPublicKey, alpha: int) -> int {
    fmul(
        fmul(fmul(pk.n as int, finv(pk.m as int)), fsub(fpow(alpha, pk.m as nat), 1)),
        finv(fsub(fpow(alpha, pk.n as nat), 1)),
    )
}

/// The scalars of the verifier's MSM for `[y]₁`: the linearised identity
/// times U(α) followed by the R* and q terms, all times δ⁴, then the
/// openings of h, R, C and row̃ batched with powers of δ.
pub open spec fn verifier_scalars(pk: &PfrPublicKey, proof: &PfrProof) -> Seq<int> {
    let beta = challenge_beta(pk, proof);
    let eta = challenge_eta(pk, proof);
    let alpha = challenge_alpha(pk, proof);
    let delta = challenge_delta(pk, proof);
    let big_delta = pk.d_domain.point(1);
    let ra = proof.r_alpha.val();
    let ca = proof.c_alpha.val();
    let ha = proof.h_alpha.val();
    let rowa = proof.row_alpha.val();
    let u = fsub(fmul(fmul(alpha, alpha), alpha), 1);
    let zk_a = fsub(fpow(alpha, pk.m as nat), 1);
    let d4 = fpow(delta, 4);
    let d2 = fmul(delta, delta);
    let d3 = fmul(d2, delta);
    let lin = lin_scalars(
        beta,
        eta,
        big_delta,
        fpow(big_delta, pk.t as nat),
        ra,
        ca,
        ha,
        rowa,
        zkh_at_alpha(pk, alpha),
        proof.f_comms@.len(),
    );
    (lin.map_values(|s: int| fmul(s, u)) + seq![
        fneg(fmul(fpow(eta, 9), alpha)),
        fneg(fmul(u, zk_a)),
    ]).map_values(|s: int| fmul(s, d4)) + seq![1, fneg(ha)] + seq![
        delta,
        fneg(fmul(delta, ra)),
    ] + seq![d2, fneg(fmul(d2, ca))] + seq![d3, fneg(fmul(d3, rowa))]
}

/// The points of the pairing check, `[y]₁`, `[Q(τ)]₁`, `[1]₂` and `[τ]₂`,
/// lie in their groups.
pub open spec fn pairing_points_valid(pk: &PfrPublicKey, proof: &PfrProof, y: Seq<u8>) -> bool {
    &&& g1_in_group(y)
    &&& g1_in_group(proof.q_poly_comm.bytes@)
    &&& g2_in_group(pk.vk.h@)
    &&& g2_in_group(pk.vk.beta_h@)
}

/// Whether `e(y, [1]₂) = e([Q(τ)]₁, [τ]₂ − α·[1]₂)`, compared through the
/// encodings of the two pairings.
pub open spec fn pairing_equation(pk: &PfrPublicKey, proof: &PfrProof, y: Seq<u8>, alpha: int) -> bool {
    pairing_value(y, pk.vk.h@) == pairing_value(
        proof.q_poly_comm.bytes@,
        g2_sub_point(pk.vk.beta_h@, g2_mul_point(pk.vk.h@, alpha)),
    )
}

/// z_H(α) = α^n − 1 is not zero.
pub open spec fn alpha_off_h(pk: &PfrPublicKey, proof: &PfrProof) -> bool {
    fsub(fpow(challenge_alpha(pk, proof), pk.n as nat), 1) != 0
}

/// Whether the verifier accepts the proof: z_H(α) ≠ 0, the MSM for `[y]₁`
/// decodes all its points, the points of the pairing check lie in their
/// groups, and `e([y]₁, [1]₂) = e([Q(τ)]₁, [τ − α]₂)`.
pub open spec fn verifier_accepts(
    pk: &PfrPublicKey,
    proof: &PfrProof,
    row: Seq<u8>,
    col: Seq<u8>,
    rowcol: Seq<u8>,
) -> bool {
    &&& alpha_off_h(pk, proof)
    &&& match msm_point(verifier_bases(pk, proof, row, col, rowcol), verifier_scalars(pk, proof)) {
        Some(y) => pairing_points_valid(pk, proof, y) && pairing_equation(
            pk,
            proof,
            y,
            challenge_alpha(pk, proof),
        ),
        None => false,
    }
}

/// The operations recorded for the MSM over `bases` and `scalars` and, when
/// its point and the pairing points are valid, the G2 scalar
/// multiplication α·[1]₂ and the two pairings.
pub open spec fn pairing_ops(
    pk: &PfrPublicKey,
    proof: &PfrProof,
    bases: Seq<Seq<u8>>,
    scalars: Seq<int>,
) -> Seq<Op> {
    let head = seq![Op::MsmG1(bases.len() as usize)];
    match msm_point(bases, scalars) {
        Some(y) => if pairing_points_valid(pk, proof, y) {
            head + seq![Op::G2ScalarMul, Op::Pairing, Op::Pairing]
        } else {
            head
        },
        None => head,
    }
}

/// The operations that [`verify`] records: none when z_H(α) = 0; else the
/// MSM for `[y]₁` and, when the pairing check is reached, the G2 scalar
/// multiplication α·[1]₂ and the two pairings.
pub open spec fn verify_ops(
    pk: &PfrPublicKey,
    proof: &PfrProof,
    row: Seq<u8>,
    col: Seq<u8>,
    rowcol: Seq<u8>,
) -> Seq<Op> {
    if alpha_off_h(pk, proof) {
        pairing_ops(pk, proof, verifier_bases(pk, proof, row, col, rowcol), verifier_scalars(pk, proof))
    } else {
        Seq::empty()
    }
}

/// Every point that the verifier decodes lies in its group: the bases of the
/// MSM for `[y]₁` and `[Q(τ)]₁` in G1, `[1]₂` and `[τ]₂` in G2.
pub open spec fn verifier_points_valid(
    pk: &PfrPublicKey,
    proof: &PfrProof,
    row: Seq<u8>,
    col: Seq<u8>,
    rowcol: Seq<u8>,
) -> bool {
    let bases = verifier_bases(pk, proof, row, col, rowcol);
    &&& forall|i: int| 0 <= i < bases.len() ==> #[trigger] g1_in_group(bases[i])
    &&& g1_in_group(proof.q_poly_comm.bytes@)
    &&& g2_in_group(pk.vk.h@)
    &&& g2_in_group(pk.vk.beta_h@)
}

/// Every encoding of `s` is a point of G1.
pub open spec fn all_g1(s: Seq<Seq<u8>>) -> bool {
    forall|i: int| 0 <= i < s.len() ==> #[trigger] g1_in_group(s[i])
}

proof fn lemma_all_g1_concat(a: Seq<Seq<u8>>, b: Seq<Seq<u8>>)
    requires
        all_g1(a),
        all_g1(b),
    ensures
        all_g1(a + b),
{
    assert forall|i: int| 0 <= i < (a + b).len() implies #[trigger] g1_in_group((a + b)[i]) by {
        if i < a.len() {
            assert((a + b)[i] == a[i]);
        } else {
            assert((a + b)[i] == b[i - a.len()]);
        }
    }
}

proof fn lemma_all_g1_pair(x: Seq<u8>, y: Seq<u8>)
    requires
        g1_in_group(x),
        g1_in_group(y),
    ensures
        all_g1(seq![x, y]),
{
    let s = seq![x, y];
    assert forall|i: int| 0 <= i < s.len() implies #[trigger] g1_in_group(s[i]) by {
        if i == 0 {
            assert(s[i] == x);
        } else {
            assert(s[i] == y);
        }
    }
}

/// When the key's points, the statement's commitments and the proof's
/// commitments are points of their groups, as `setup`, `commit_statement`
/// and `prove` make them, every point that `verify` decodes is valid; by
/// `verify`'s contract it then records exactly one MSM, one G2 scalar
/// multiplication and two pairings (when z_H(α) ≠ 0).
pub proof fn law_honest_points_valid(
    pk: &PfrPublicKey,
    proof: &PfrProof,
    row: Seq<u8>,
    col: Seq<u8>,
    rowcol: Seq<u8>,
)
    requires
        g1_in_group(pk.vk.g@),
        g1_in_group(pk.h_commitment.bytes@),
        g2_in_group(pk.vk.h@),
        g2_in_group(pk.vk.beta_h@),
        crate::prover::proof_points_in_g1(proof),
        proof.f_comms.len() >= 5,
        g1_in_group(row),
        g1_in_group(col),
        g1_in_group(rowcol),
    ensures
        verifier_points_valid(pk, proof, row, col, rowcol),
{
    let g = pk.vk.g@;
    let f = proof.f_comms@;
    lemma_all_g1_pair(f[0].bytes@, g);
    lemma_all_g1_pair(f[1].bytes@, g);
    lemma_all_g1_pair(f[2].bytes@, g);
    lemma_all_g1_pair(f[3].bytes@, g);
    lemma_all_g1_pair(f[4].bytes@, proof.m_comm.bytes@);
    lemma_all_g1_pair(g, row);
    lemma_all_g1_pair(g, col);
    lemma_all_g1_pair(rowcol, col);
    lemma_all_g1_pair(proof.rowtilde_comm.bytes@, row);
    let p0 = seq![f[0].bytes@, g];
    let p1 = seq![f[1].bytes@, g];
    let p2 = seq![f[2].bytes@, g];
    let p3 = seq![f[3].bytes@, g];
    let p4 = seq![f[4].bytes@, proof.m_comm.bytes@];
    let p5 = seq![g, row];
    let p6 = seq![g, col];
    let p7 = seq![rowcol, col];
    let p8 = seq![proof.rowtilde_comm.bytes@, row];
    lemma_all_g1_concat(p0, p1);
    lemma_all_g1_concat(p0 + p1, p2);
    lemma_all_g1_concat(p0 + p1 + p2, p3);
    lemma_all_g1_concat(p0 + p1 + p2 + p3, p4);
    lemma_all_g1_concat(p0 + p1 + p2 + p3 + p4, p5);
    lemma_all_g1_concat(p0 + p1 + p2 + p3 + p4 + p5, p6);
    lemma_all_g1_concat(p0 + p1 + p2 + p3 + p4 + p5 + p6, p7);
    lemma_all_g1_concat(p0 + p1 + p2 + p3 + p4 + p5 + p6 + p7, p8);
    let head = lin_head_bases(pk, proof, row, col, rowcol);
    assert(head == p0 + p1 + p2 + p3 + p4 + p5 + p6 + p7 + p8);
    let fm = f.map_values(|c: Commitment| c.bytes@);
    assert forall|i: int| 0 <= i < fm.len() implies #[trigger] g1_in_group(fm[i]) by {
        assert(fm[i] == f[i].bytes@);
    }
    let sq = seq![proof.s_comm.bytes@];
    assert forall|i: int| 0 <= i < sq.len() implies #[trigger] g1_in_group(sq[i]) by {
        assert(sq[i] == proof.s_comm.bytes@);
    }
    lemma_all_g1_concat(head, fm);
    lemma_all_g1_concat(head + fm, sq);
    let lin = lin_bases(pk, proof, row, col, rowcol);
    assert(lin == head + fm + sq);
    lemma_all_g1_pair(proof.r_star_comm.bytes@, proof.q_comm.bytes@);
    lemma_all_g1_pair(pk.h_commitment.bytes@, g);
    lemma_all_g1_pair(proof.r_comm.bytes@, g);
    lemma_all_g1_pair(proof.c_comm.bytes@, g);
    lemma_all_g1_pair(proof.rowtilde_comm.bytes@, g);
    let t0 = seq![proof.r_star_comm.bytes@, proof.q_comm.bytes@];
    let t1 = seq![pk.h_commitment.bytes@, g];
    let t2 = seq![proof.r_comm.bytes@, g];
    let t3 = seq![proof.c_comm.bytes@, g];
    let t4 = seq![proof.rowtilde_comm.bytes@, g];
    lemma_all_g1_concat(lin, t0);
    lemma_all_g1_concat(lin + t0, t1);
    lemma_all_g1_concat(lin + t0 + t1, t2);
    lemma_all_g1_concat(lin + t0 + t1 + t2, t3);
    lemma_all_g1_concat(lin + t0 + t1 + t2 + t3, t4);
    assert(verifier_bases(pk, proof, row, col, rowcol) == lin + t0 + t1 + t2 + t3 + t4);
}

/// Whether two byte strings are equal.
fn bytes_equal(a: &Vec<u8>, b: &Vec<u8>) -> (r: bool)
    ensures
        r == (a@ == b@),
{
    if a.len() != b.len() {
        return false;
    }
    let mut i: usize = 0;
    while i < a.len()
        invariant
            i <= a.len(),
            a.len() == b.len(),
            forall|k: int| 0 <= k < i ==> a@[k] == b@[k],
        decreases a.len() - i,
    {
        if a[i] != b[i] {
            return false;
        }
        i = i + 1;
    }
    assert(a@ =~= b@);
    true
}

/// The MSM for `[y]₁` over `bases` and `scalars`, then the pairing check,
/// recording the operations as they are reached.
fn msm_and_pairing(
    pk: &PfrPublicKey,
    proof: &PfrProof,
    bases: &Vec<Vec<u8>>,
    scalars: &Vec<Scalar>,
    alpha: Scalar,
    counter: &mut Option<OpCounts>,
) -> (ok: bool)
    requires
        bases.len() == scalars.len(),
        all_wf(scalars@),
        alpha.wf(),
    ensures
        ok == match msm_point(byte_seqs(bases@), vals(scalars@)) {
            Some(y) => pairing_points_valid(pk, proof, y) && pairing_equation(pk, proof, y, alpha.val()),
            None => false,
        },
        counter_view(*final(counter)) == counter_after_all(
            counter_view(*old(counter)),
            pairing_ops(pk, proof, byte_seqs(bases@), vals(scalars@)),
        ),
        (forall|i: int| 0 <= i < bases.len() ==> #[trigger] g1_in_group(bases@[i]@))
            && g1_in_group(proof.q_poly_comm.bytes@) && g2_in_group(pk.vk.h@) && g2_in_group(
            pk.vk.beta_h@,
        ) ==> pairing_ops(pk, proof, byte_seqs(bases@), vals(scalars@)) == seq![
            Op::MsmG1(bases.len()),
            Op::G2ScalarMul,
            Op::Pairing,
            Op::Pairing,
        ],
{
    let ghost c0 = counter_view(*counter);
    let ghost e = Seq::<Op>::empty();
    let ghost m_op = Op::MsmG1(bases.len());
    proof {
        assert(byte_seqs(bases@).len() == bases@.len());
        lemma_after_all_push(c0, e, m_op);
        assert(e.push(m_op) =~= seq![m_op]);
    }
    record_msm_g1(counter, bases.len());
    let ghost c1 = counter_view(*counter);
    let y_opt = msm(bases, scalars);
    proof {
        let tail = seq![Op::G2ScalarMul, Op::Pairing, Op::Pairing];
        assert(seq![m_op] + tail =~= seq![m_op, Op::G2ScalarMul, Op::Pairing, Op::Pairing]);
    }
    match y_opt {
        Some(y) => {
            if g1_check(&y) && g1_check(&proof.q_poly_comm.bytes) && g2_check(&pk.vk.h) && g2_check(
                &pk.vk.beta_h,
            ) {
                // [τ − α]₂ = [τ]₂ − α·[1]₂
                record_g2_scalarmul(counter);
                let alpha_h = g2_mul(&pk.vk.h, alpha);
                let tau_minus_alpha_h = g2_sub(&pk.vk.beta_h, &alpha_h);
                record_pairing(counter);
                let lhs = pairing(&y, &pk.vk.h);
                record_pairing(counter);
                let rhs = pairing(&proof.q_poly_comm.bytes, &tau_minus_alpha_h);
                proof {
                    let tail = seq![Op::G2ScalarMul, Op::Pairing, Op::Pairing];
                    lemma_after_all_push(c1, e, tail[0]);
                    lemma_after_all_push(c1, e.push(tail[0]), tail[1]);
                    lemma_after_all_push(c1, e.push(tail[0]).push(tail[1]), tail[2]);
                    assert(e.push(tail[0]).push(tail[1]).push(tail[2]) =~= tail);
                    lemma_after_all_concat(c0, seq![m_op], tail);
                }
                bytes_equal(&lhs, &rhs)
            } else {
                false
            }
        },
        None => false,
    }
}

/// A copy of a byte vector.
fn copy_bytes(v: &Vec<u8>) -> (r: Vec<u8>)
    ensures
        r@ == v@,
{
    let r = v.clone();
    assert(r@ =~= v@);
    r
}

/// Pushes `c` with the scalar `x` onto the MSM.
fn add_term(bases: &mut Vec<Vec<u8>>, scalars: &mut Vec<Scalar>, x: Scalar, c: &Vec<u8>)
    requires
        x.wf(),
        all_wf(old(scalars)@),
    ensures
        byte_seqs(final(bases)@) == byte_seqs(old(bases)@).push(c@),
        final(scalars)@ == old(scalars)@.push(x),
        vals(final(scalars)@) == vals(old(scalars)@).push(x.val()),
        all_wf(final(scalars)@),
{
    bases.push(copy_bytes(c));
    scalars.push(x);
    assert(byte_seqs(bases@) =~= byte_seqs(old(bases)@).push(c@));
    assert(vals(scalars@) =~= vals(old(scalars)@).push(x.val()));
}

/// Pushes the two terms of one power of η onto the MSM.
fn add_pair(
    bases: &mut Vec<Vec<u8>>,
    scalars: &mut Vec<Scalar>,
    x1: Scalar,
    c1: &Vec<u8>,
    x2: Scalar,
    c2: &Vec<u8>,
)
    requires
        x1.wf(),
        x2.wf(),
        all_wf(old(scalars)@),
    ensures
        byte_seqs(final(bases)@) == byte_seqs(old(bases)@) + seq![c1@, c2@],
        vals(final(scalars)@) == vals(old(scalars)@) + seq![x1.val(), x2.val()],
        all_wf(final(scalars)@),
{
    add_term(bases, scalars, x1, c1);
    add_term(bases, scalars, x2, c2);
    assert(byte_seqs(bases@) =~= byte_seqs(old(bases)@) + seq![c1@, c2@]);
    assert(vals(scalars@) =~= vals(old(scalars)@) + seq![x1.val(), x2.val()]);
}

/// Multiplies every scalar by `f`.
fn scale_all(scalars: &mut Vec<Scalar>, f: Scalar)
    requires
        all_wf(old(scalars)@),
        f.wf(),
    ensures
        final(scalars).len() == old(scalars).len(),
        all_wf(final(scalars)@),
        vals(final(scalars)@) == vals(old(scalars)@).map_values(|s: int| fmul(s, f.val())),
{
    let mut i: usize = 0;
    while i < scalars.len()
        invariant
            i <= scalars.len(),
            scalars.len() == old(scalars).len(),
            f.wf(),
            all_wf(scalars@),
            all_wf(old(scalars)@),
            forall|j: int| 0 <= j < i ==> #[trigger] scalars@[j].val() == fmul(old(scalars)@[j].val(), f.val()),
            forall|j: int| i <= j < scalars.len() ==> #[trigger] scalars@[j] == old(scalars)@[j],
        decreases scalars.len() - i,
    {
        let v = scalars[i].mul(&f);
        scalars.set(i, v);
        i = i + 1;
    }
    assert(vals(scalars@) =~= vals(old(scalars)@).map_values(|s: int| fmul(s, f.val())));
}

/// The η⁰ … η⁸ terms of the linearised identity (see [`lin_head_scalars`]).
fn lin_head_terms(
    pk: &PfrPublicKey,
    proof: &PfrProof,
    row_comm: &Commitment,
    col_comm: &Commitment,
    rowcol_comm: &Commitment,
    beta: Scalar,
    e: &Vec<Scalar>,
    zkh_at_alpha: Scalar,
    big_delta: Scalar,
    big_delta_t: Scalar,
    Ghost(eta): Ghost<int>,
) -> (r: (Vec<Vec<u8>>, Vec<Scalar>))
    requires
        big_delta.wf(),
        big_delta_t.wf(),
        big_delta.val() == pk.d_domain.point(1),
        big_delta_t.val() == fpow(pk.d_domain.point(1), pk.t as nat),
        proof.f_comms.len() >= 5,
        proof.h_alpha.wf(),
        proof.r_alpha.wf(),
        proof.c_alpha.wf(),
        proof.row_alpha.wf(),
        beta.wf(),
        e.len() == 10,
        all_wf(e@),
        forall|k: int| 0 <= k < 10 ==> #[trigger] e@[k].val() == fpow(eta, k as nat),
        zkh_at_alpha.wf(),
    ensures
        byte_seqs(r.0@) == lin_head_bases(
            pk,
            proof,
            row_comm.bytes@,
            col_comm.bytes@,
            rowcol_comm.bytes@,
        ),
        all_wf(r.1@),
        vals(r.1@) == lin_head_scalars(
            beta.val(),
            eta,
            pk.d_domain.point(1),
            fpow(pk.d_domain.point(1), pk.t as nat),
            proof.r_alpha.val(),
            proof.c_alpha.val(),
            proof.h_alpha.val(),
            proof.row_alpha.val(),
            zkh_at_alpha.val(),
        ),
{
    let h_alpha = proof.h_alpha;
    let r_alpha = proof.r_alpha;
    let c_alpha = proof.c_alpha;
    let row_alpha = proof.row_alpha;
    let g1 = &pk.vk.g;
    let mut bases: Vec<Vec<u8>> = Vec::new();
    let mut scalars: Vec<Scalar> = Vec::new();
    // η⁰: F₁(τ)(β + R_α) − 1
    add_term(&mut bases, &mut scalars, e[0].mul(&beta.add(&r_alpha)), &proof.f_comms[0].bytes);
    add_term(&mut bases, &mut scalars, e[0].neg(), g1);
    assert(byte_seqs(bases@) =~= seq![proof.f_comms@[0].bytes@, pk.vk.g@]);
    assert(vals(scalars@) =~= seq![
        fmul(fpow(eta, 0), fadd(beta.val(), r_alpha.val())),
        fneg(fpow(eta, 0)),
    ]);
    // η¹: F₂(τ)(β + C_α) − 1
    add_pair(&mut bases, &mut scalars, e[1].mul(&beta.add(&c_alpha)), &proof.f_comms[1].bytes, e[1].neg(), g1);
    // η²: F₃(τ)(β·Δ·R_α + C_α) − Δ·R_α
    add_pair(
        &mut bases,
        &mut scalars,
        e[2].mul(&beta.mul(&big_delta).mul(&r_alpha).add(&c_alpha)),
        &proof.f_comms[2].bytes,
        e[2].mul(&big_delta).mul(&r_alpha).neg(),
        g1,
    );
    // η³: F₄(τ)(β·Δᵗ + C_α) − Δᵗ
    add_pair(
        &mut bases,
        &mut scalars,
        e[3].mul(&beta.mul(&big_delta_t).add(&c_alpha)),
        &proof.f_comms[3].bytes,
        e[3].mul(&big_delta_t).neg(),
        g1,
    );
    // η⁴: F₅(τ)(β + h_α) + m(τ)·z_{K\H}(α)
    add_pair(
        &mut bases,
        &mut scalars,
        e[4].mul(&beta.add(&h_alpha)),
        &proof.f_comms[4].bytes,
        e[4].mul(&zkh_at_alpha),
        &proof.m_comm.bytes,
    );
    // η⁵: R_α² − row(τ)
    add_pair(&mut bases, &mut scalars, e[5].mul(&r_alpha).mul(&r_alpha), g1, e[5].neg(), &row_comm.bytes);
    // η⁶: C_α² − col(τ)
    add_pair(&mut bases, &mut scalars, e[6].mul(&c_alpha).mul(&c_alpha), g1, e[6].neg(), &col_comm.bytes);
    // η⁷: rowcol(τ) − row̃_α · col(τ)
    add_pair(&mut bases, &mut scalars, e[7], &rowcol_comm.bytes, e[7].mul(&row_alpha).neg(), &col_comm.bytes);
    // η⁸: row̃(τ) − row(τ)
    add_pair(&mut bases, &mut scalars, e[8], &proof.rowtilde_comm.bytes, e[8].neg(), &row_comm.bytes);
    (bases, scalars)
}

/// The terms of the η-batched linearised identity (see [`lin_scalars`]).
fn lin_terms(
    pk: &PfrPublicKey,
    proof: &PfrProof,
    row_comm: &Commitment,
    col_comm: &Commitment,
    rowcol_comm: &Commitment,
    beta: Scalar,
    eta: Scalar,
    zkh_at_alpha: Scalar,
) -> (r: (Vec<Vec<u8>>, Vec<Scalar>))
    requires
        pk.wf(),
        proof.f_comms.len() >= 5,
        proof.h_alpha.wf(),
        proof.r_alpha.wf(),
        proof.c_alpha.wf(),
        proof.row_alpha.wf(),
        beta.wf(),
        eta.wf(),
        zkh_at_alpha.wf(),
    ensures
        byte_seqs(r.0@) == lin_bases(pk, proof, row_comm.bytes@, col_comm.bytes@, rowcol_comm.bytes@),
        all_wf(r.1@),
        vals(r.1@) == lin_scalars(
            beta.val(),
            eta.val(),
            pk.d_domain.point(1),
            fpow(pk.d_domain.point(1), pk.t as nat),
            proof.r_alpha.val(),
            proof.c_alpha.val(),
            proof.h_alpha.val(),
            proof.row_alpha.val(),
            zkh_at_alpha.val(),
            proof.f_comms@.len(),
        ),
{
    let e = eta_powers(eta);
    let big_delta = pk.big_delta();
    let big_delta_t = big_delta.pow(pk.t as u64);
    let (mut bases, mut scalars) = lin_head_terms(
        pk,
        proof,
        row_comm,
        col_comm,
        rowcol_comm,
        beta,
        &e,
        zkh_at_alpha,
        big_delta,
        big_delta_t,
        Ghost(eta.val()),
    );
    let ghost head_b = byte_seqs(bases@);
    let ghost head_s = scalars@;
    // η⁹: ∑Fⱼ(τ) + η·S(τ)
    let eta9 = e[9];
    let mut j: usize = 0;
    while j < proof.f_comms.len()
        invariant
            j <= proof.f_comms.len(),
            eta9.wf(),
            eta9.val() == fpow(eta.val(), 9),
            byte_seqs(bases@) == head_b + proof.f_comms@.subrange(0, j as int).map_values(
                |c: Commitment| c.bytes@,
            ),
            scalars@ == head_s + Seq::new(j as nat, |i: int| eta9),
            all_wf(scalars@),
        decreases proof.f_comms.len() - j,
    {
        add_term(&mut bases, &mut scalars, eta9, &proof.f_comms[j].bytes);
        j = j + 1;
        assert(proof.f_comms@.subrange(0, j as int).map_values(|c: Commitment| c.bytes@)
            =~= proof.f_comms@.subrange(0, j - 1).map_values(|c: Commitment| c.bytes@).push(
            proof.f_comms@[j - 1].bytes@,
        ));
        assert(Seq::new(j as nat, |i: int| eta9) =~= Seq::new((j - 1) as nat, |i: int| eta9).push(eta9));
    }
    add_term(&mut bases, &mut scalars, eta9.mul(&eta), &proof.s_comm.bytes);
    proof {
        assert(proof.f_comms@.subrange(0, proof.f_comms@.len() as int) =~= proof.f_comms@);
        assert(byte_seqs(bases@) =~= lin_bases(pk, proof, row_comm.bytes@, col_comm.bytes@, rowcol_comm.bytes@));
        assert(vals(scalars@) =~= lin_scalars(
            beta.val(),
            eta.val(),
            pk.d_domain.point(1),
            fpow(pk.d_domain.point(1), pk.t as nat),
            proof.r_alpha.val(),
            proof.c_alpha.val(),
            proof.h_alpha.val(),
            proof.row_alpha.val(),
            zkh_at_alpha.val(),
            proof.f_comms@.len(),
        ));
    }
    (bases, scalars)
}

/// The challenges β, η, α, δ of the proof's Fiat–Shamir transcript.
fn replay_challenges(pk: &PfrPublicKey, proof: &PfrProof) -> (r: (Scalar, Scalar, Scalar, Scalar))
    requires
        proof.f_comms.len() >= 5,
        proof.h_alpha.wf(),
        proof.r_alpha.wf(),
        proof.c_alpha.wf(),
        proof.row_alpha.wf(),
    ensures
        r.0.wf() && r.1.wf() && r.2.wf() && r.3.wf(),
        r.0.val() == challenge_beta(pk, proof),
        r.1.val() == challenge_eta(pk, proof),
        r.2.val() == challenge_alpha(pk, proof),
        r.3.val() == challenge_delta(pk, proof),
{
    let mut fs = Transcript::new(copy_bytes(&pk.h_commitment.bytes));
    let mut msg1: Vec<u8> = Vec::new();
    append_bytes(&mut msg1, &proof.r_comm.bytes);
    append_bytes(&mut msg1, &proof.c_comm.bytes);
    append_bytes(&mut msg1, &proof.m_comm.bytes);
    append_bytes(&mut msg1, &proof.s_comm.bytes);
    append_bytes(&mut msg1, &proof.rowtilde_comm.bytes);
    fs.absorb(msg1);
    let ghost t1 = fs.msgs();
    let beta = fs.challenge();

    let mut msg2: Vec<u8> = Vec::new();
    append_bytes(&mut msg2, &proof.f_comms[0].bytes);
    append_bytes(&mut msg2, &proof.f_comms[1].bytes);
    append_bytes(&mut msg2, &proof.f_comms[2].bytes);
    append_bytes(&mut msg2, &proof.f_comms[3].bytes);
    append_bytes(&mut msg2, &proof.f_comms[4].bytes);
    fs.absorb(msg2);
    let ghost t2 = fs.msgs();
    let eta = fs.challenge();

    let mut msg3: Vec<u8> = Vec::new();
    append_bytes(&mut msg3, &proof.r_star_comm.bytes);
    append_bytes(&mut msg3, &proof.q_comm.bytes);
    fs.absorb(msg3);
    let ghost t3 = fs.msgs();
    let alpha = fs.challenge();

    let mut msg4: Vec<u8> = Vec::new();
    append_bytes(&mut msg4, &proof.h_alpha.to_bytes());
    append_bytes(&mut msg4, &proof.r_alpha.to_bytes());
    append_bytes(&mut msg4, &proof.c_alpha.to_bytes());
    append_bytes(&mut msg4, &proof.row_alpha.to_bytes());
    fs.absorb(msg4);
    let ghost t4 = fs.msgs();
    let delta = fs.challenge();
    proof {
        assert(t1 =~= seq![transcript_seed(pk), round_one_message(proof)]);
        assert(t2 =~= seq![transcript_seed(pk), round_one_message(proof), round_two_message(proof)]);
        assert(t3 =~= seq![
            transcript_seed(pk),
            round_one_message(proof),
            round_two_message(proof),
            round_three_message(proof),
        ]);
        assert(t4 =~= seq![
            transcript_seed(pk),
            round_one_message(proof),
            round_two_message(proof),
            round_three_message(proof),
            round_four_message(proof),
        ]);
    }

    (beta, eta, alpha, delta)
}

/// The bases and scalars of the verifier's MSM for `[y]₁`.
fn msm_inputs(
    pk: &PfrPublicKey,
    proof: &PfrProof,
    row_comm: &Commitment,
    col_comm: &Commitment,
    rowcol_comm: &Commitment,
    beta: Scalar,
    eta: Scalar,
    alpha: Scalar,
    delta: Scalar,
) -> (r: (Vec<Vec<u8>>, Vec<Scalar>))
    requires
        pk.wf(),
        proof.f_comms.len() >= 5,
        proof.h_alpha.wf(),
        proof.r_alpha.wf(),
        proof.c_alpha.wf(),
        proof.row_alpha.wf(),
        beta.wf() && eta.wf() && alpha.wf() && delta.wf(),
        beta.val() == challenge_beta(pk, proof),
        eta.val() == challenge_eta(pk, proof),
        alpha.val() == challenge_alpha(pk, proof),
        delta.val() == challenge_delta(pk, proof),
    ensures
        r.0.len() == r.1.len(),
        all_wf(r.1@),
        byte_seqs(r.0@) == verifier_bases(pk, proof, row_comm.bytes@, col_comm.bytes@, rowcol_comm.bytes@),
        vals(r.1@) == verifier_scalars(pk, proof),
        inverse_known(fsub(fpow(alpha.val(), pk.n as nat), 1)),
{
    // U(α) = α³ − 1,  z_K(α),  z_{K\H}(α) = (n/m)·z_K(α)/z_H(α)
    let one = Scalar::one();
    let u_at_alpha = alpha.mul(&alpha).mul(&alpha).sub(&one);
    let zk_at_alpha = pk.k_domain.vanishing_polynomial().evaluate(&alpha);
    let zh_at_alpha = pk.h_domain.vanishing_polynomial().evaluate(&alpha);
    let nm_ratio = Scalar::from_u64(pk.n as u64).mul(&Scalar::from_u64(pk.m as u64).inverse_or_zero());
    let zh_inv = zh_at_alpha.inverse_or_zero();
    proof {
        crate::field::lemma_inverse_known(zh_at_alpha.val(), zh_inv.val());
    }
    let zkh_alpha = nm_ratio.mul(&zk_at_alpha).mul(&zh_inv);
    // η⁹
    let eta9 = eta.pow(9);

    // [big_lin(τ)]₁ as an MSM over proof and public-input commitments.
    let (mut bases, mut scalars) = lin_terms(pk, proof, row_comm, col_comm, rowcol_comm, beta, eta, zkh_alpha);

    // Multiply big_lin by U(α), then add −η⁹·α·[R*(τ)]₁ and −U(α)·z_K(α)·[q(τ)]₁
    scale_all(&mut scalars, u_at_alpha);
    add_pair(
        &mut bases,
        &mut scalars,
        eta9.mul(&alpha).neg(),
        &proof.r_star_comm.bytes,
        u_at_alpha.mul(&zk_at_alpha).neg(),
        &proof.q_comm.bytes,
    );

    // Scale all existing Lin terms by δ⁴
    let delta4 = delta.pow(4);
    scale_all(&mut scalars, delta4);

    // h term
    add_pair(&mut bases, &mut scalars, one, &pk.h_commitment.bytes, proof.h_alpha.neg(), &pk.vk.g);
    // δ · R term
    add_pair(&mut bases, &mut scalars, delta, &proof.r_comm.bytes, delta.mul(&proof.r_alpha).neg(), &pk.vk.g);
    // δ² · C term
    let delta2 = delta.mul(&delta);
    add_pair(&mut bases, &mut scalars, delta2, &proof.c_comm.bytes, delta2.mul(&proof.c_alpha).neg(), &pk.vk.g);
    // δ³ · row̃ term
    let delta3 = delta2.mul(&delta);
    add_pair(
        &mut bases,
        &mut scalars,
        delta3,
        &proof.rowtilde_comm.bytes,
        delta3.mul(&proof.row_alpha).neg(),
        &pk.vk.g,
    );

    assert(byte_seqs(bases@).len() == bases@.len());
    assert(vals(scalars@).len() == scalars@.len());
    (bases, scalars)
}

/// Verify a PFR proof.
///
/// Implements the verification equation of the paper (page 39):
///
///   [y]₁ = [h(τ)]₁ − h_α·[1]₁
///        + δ([R(τ)]₁ − R_α·[1]₁)
///        + δ²([C(τ)]₁ − C_α·[1]₁)
///        + δ³([row̃(τ)]₁ − row̃_α·[1]₁)
///        + δ⁴[Lin(τ)]₁
///
///   where [Lin(τ)]₁ = U(α)·[big_lin(τ)]₁ − η⁹·α·[R*(τ)]₁ − U(α)·z_K(α)·[q(τ)]₁
///   and [big_lin(τ)]₁ is the MSM described at [`lin_scalars`].
///
///   Check: e([y]₁, [1]₂) = e([Q(τ)]₁, [τ − α]₂)
///
/// `row_comm`, `col_comm` and `rowcol_comm` are the public inputs.  The
/// answer is `false` when a commitment does not decode as a G1 point, or
/// when a point of the pairing check is not a point of its group.  The MSM,
/// the G2 scalar multiplication and the two pairings are recorded in
/// `counter` as they are reached.  When z_H(α) = 0, where z_{K∖H}(α) has
/// no value, the answer is `false` and nothing is recorded.
pub fn verify(
    pk: &PfrPublicKey,
    proof: &PfrProof,
    row_comm: &Commitment,
    col_comm: &Commitment,
    rowcol_comm: &Commitment,
    counter: &mut Option<OpCounts>,
) -> (ok: bool)
    requires
        pk.wf(),
        proof.f_comms.len() >= 5,
        proof.h_alpha.wf(),
        proof.r_alpha.wf(),
        proof.c_alpha.wf(),
        proof.row_alpha.wf(),
    ensures
        ok == verifier_accepts(pk, proof, row_comm.bytes@, col_comm.bytes@, rowcol_comm.bytes@),
        alpha_off_h(pk, proof) ==> inverse_known(
            fsub(fpow(challenge_alpha(pk, proof), pk.n as nat), 1),
        ),
        counter_view(*final(counter)) == counter_after_all(
            counter_view(*old(counter)),
            verify_ops(pk, proof, row_comm.bytes@, col_comm.bytes@, rowcol_comm.bytes@),
        ),
        alpha_off_h(pk, proof) && verifier_points_valid(
            pk,
            proof,
            row_comm.bytes@,
            col_comm.bytes@,
            rowcol_comm.bytes@,
        ) ==> verify_ops(pk, proof, row_comm.bytes@, col_comm.bytes@, rowcol_comm.bytes@) == seq![
            Op::MsmG1(
                verifier_bases(pk, proof, row_comm.bytes@, col_comm.bytes@, rowcol_comm.bytes@).len() as usize,
            ),
            Op::G2ScalarMul,
            Op::Pairing,
            Op::Pairing,
        ],
{
    // Derive Fiat-Shamir challenges
    let (beta, eta, alpha, delta) = replay_challenges(pk, proof);

    // z_{K∖H}(α) divides by z_H(α): no verdict when it is 0.
    let zh_at_alpha = pk.h_domain.vanishing_polynomial().evaluate(&alpha);
    if zh_at_alpha.is_zero() {
        return false;
    }

    let (bases, scalars) = msm_inputs(pk, proof, row_comm, col_comm, rowcol_comm, beta, eta, alpha, delta);

    proof {
        let vb = verifier_bases(pk, proof, row_comm.bytes@, col_comm.bytes@, rowcol_comm.bytes@);
        assert(byte_seqs(bases@) == vb);
        assert(vb.len() == bases.len());
        if verifier_points_valid(pk, proof, row_comm.bytes@, col_comm.bytes@, rowcol_comm.bytes@) {
            assert forall|i: int| 0 <= i < bases.len() implies #[trigger] g1_in_group(bases@[i]@) by {
                assert(byte_seqs(bases@)[i] == bases@[i]@);
                assert(g1_in_group(vb[i]));
            }
        }
    }
    // Compute [y]₁ via MSM and check e([y]₁, [1]₂) = e([Q(τ)]₁, [τ−α]₂)
    msm_and_pairing(pk, proof, &bases, &scalars, alpha, counter)
}


// ---------------------------------------------------------------------------
// z_{K∖H}(α) in the verifier
// ---------------------------------------------------------------------------

/// `(y − 1)·Σ_{j<k} y^j = y^k − 1` over the integers.
proof fn lemma_geom_telescopes(y: int, k: nat)
    ensures
        (y - 1) * crate::identities::int_geom(y, k as int) == vstd::arithmetic::power::pow(y, k) - 1,
    decreases k,
{
    reveal(vstd::arithmetic::power::pow);
    if k == 0 {
        assert((y - 1) * 0 == 0);
    } else {
        lemma_geom_telescopes(y, (k - 1) as nat);
        let g = crate::identities::int_geom(y, k - 1);
        let pw = vstd::arithmetic::power::pow(y, (k - 1) as nat);
        assert(vstd::arithmetic::power::pow(y, k) == y * pw);
        assert((y - 1) * (g + pw) == (y - 1) * g + y * pw - pw) by (nonlinear_arith);
    }
}

/// The verifier's z_{K∖H}(α) = (n/m)·(α^m − 1)/(α^n − 1) is the value at α of
/// the polynomial z_{K∖H}(X) = (n/m)·(1 + Xⁿ + X²ⁿ + … + X^{m−n}) that the
/// key evaluates on the coset and round 5 substitutes, for every size pair
/// n | m and every α off H (where α^n − 1 has its inverse).
pub proof fn law_verifier_zkh_is_polynomial(pk: &PfrPublicKey, alpha: int)
    requires
        pk.wf(),
        fsub(fpow(alpha, pk.n as nat), 1) != 0,
        inverse_known(fsub(fpow(alpha, pk.n as nat), 1)),
    ensures
        zkh_at_alpha(pk, alpha) == poly_eval(
            crate::types::zkh_coeffs(pk.n as int, pk.m as int),
            alpha,
        ),
{
    let p = modulus();
    let n = pk.n as int;
    let m = pk.m as int;
    let k = m / n;
    let s = fmul(n, finv(m));
    assert(k >= 1) by (nonlinear_arith)
        requires
            k == m / n,
            1 <= n <= m,
    ;
    vstd::arithmetic::div_mod::lemma_fundamental_div_mod(m, n);
    assert(m == n * k);
    // the polynomial's value: s·Σ_{j<k} (αⁿ)^j
    assert(crate::types::zkh_coeffs(n, m) =~= crate::identities::sparse_coeffs(n, k, s));
    crate::identities::lemma_poly_eval_horner(crate::identities::sparse_coeffs(n, k, s), alpha);
    crate::identities::lemma_horner_sparse(n, k, s, alpha);
    let y = vstd::arithmetic::power::pow(alpha, n as nat);
    crate::identities::lemma_geom_forms(y, k);
    let g = crate::identities::int_geom(y, k);
    let gf = g % p;
    reveal(fmul);
    vstd::arithmetic::div_mod::lemma_mul_mod_noop_right(s, g, p);
    assert(poly_eval(crate::types::zkh_coeffs(n, m), alpha) == fmul(s, gf));
    // z_H(α)·G = z_K(α)
    let zh = fsub(fpow(alpha, n as nat), 1);
    let zk = fsub(fpow(alpha, m as nat), 1);
    lemma_geom_telescopes(y, k as nat);
    vstd::arithmetic::power::lemma_pow_multiplies(alpha, n as nat, k as nat);
    assert(vstd::arithmetic::power::pow(y, k as nat) == vstd::arithmetic::power::pow(alpha, m as nat));
    assert(fmul(zh, gf) == zk) by {
        reveal(fsub);
        vstd::arithmetic::div_mod::lemma_small_mod(1, p as nat);
        vstd::arithmetic::div_mod::lemma_sub_mod_noop(y, 1, p);
        vstd::arithmetic::div_mod::lemma_sub_mod_noop(
            vstd::arithmetic::power::pow(alpha, m as nat),
            1,
            p,
        );
        vstd::arithmetic::div_mod::lemma_mul_mod_noop(y - 1, g, p);
    }
    // (n/m)·z_K(α)·z_H(α)⁻¹ = (n/m)·G
    lemma_ops_canonical(s, gf);
    lemma_ops_canonical(zh, gf);
    vstd::arithmetic::div_mod::lemma_mod_bound(g, p);
    lemma_ops_canonical(fpow(alpha, n as nat), 1);
    vstd::arithmetic::div_mod::lemma_small_mod(zh as nat, p as nat);
    assert(fmul(finv(zh), zh) == 1);
    lemma_fmul_assoc(s, fmul(zh, gf), finv(zh));
    lemma_fmul_comm(zh, gf);
    lemma_fmul_assoc(gf, zh, finv(zh));
    lemma_fmul_comm(zh, finv(zh));
    lemma_fmul_one(gf);
}

/// The scalar that the verifier's MSM puts on [m(τ)]₁ is
/// η⁴·z_{K∖H}(α)·U(α)·δ⁴, with z_{K∖H}(α) the value at α of the polynomial
/// z_{K∖H}(X) (see [`law_verifier_zkh_is_polynomial`]), for α off H.
pub proof fn law_verifier_m_scalar(pk: &PfrPublicKey, proof: &PfrProof)
    requires
        pk.wf(),
        alpha_off_h(pk, proof),
        inverse_known(fsub(fpow(challenge_alpha(pk, proof), pk.n as nat), 1)),
    ensures
        ({
            let alpha = challenge_alpha(pk, proof);
            let eta = challenge_eta(pk, proof);
            let u = fsub(fmul(fmul(alpha, alpha), alpha), 1);
            let z = poly_eval(crate::types::zkh_coeffs(pk.n as int, pk.m as int), alpha);
            &&& verifier_bases(pk, proof, seq![], seq![], seq![])[9] == proof.m_comm.bytes@
            &&& verifier_scalars(pk, proof)[9] == fmul(
                fmul(fmul(fpow(eta, 4), z), u),
                fpow(challenge_delta(pk, proof), 4),
            )
        }),
{
    let alpha = challenge_alpha(pk, proof);
    law_verifier_zkh_is_polynomial(pk, alpha);
}

} // verus!
