use pfr::field::Scalar;
use pfr::poly::Poly;
use pfr::types::zkh_polynomial;
use pfr::{commit_statement, round_one, round_three, round_two, PfrPublicKey, PfrStatement};

const N: usize = 4;
const M: usize = 4;
const T: usize = 1;
const ROW: [usize; 4] = [0, 1, 2, 0];
const COL: [usize; 4] = [1, 2, 3, 3];
// Multiplicities from eq. (7) with T=1.  Each (r,c) contributes indices
// r, c, c−r−1, c−t.  Tally over ROW×COL:
//   index 0: r=0(×3), r=0(i3), c-r-1=0(i1), c-r-1=0(i2)  → 6
//   index 1: c=1(i0), r=1(i1), c-t=1(i1)                  → 3
//   index 2: c=2(i1), r=2(i2), c-t=2(i2), c-r-1=2(i3), c-t=2(i3) → 5
//   index 3: c=3(i2), c=3(i3)                              → 2
const MULTS: [u64; 4] = [6, 3, 5, 2];
const MARLIN_ROW: [usize; 32] = [
    3, 3, 4, 1, 3, 0, 5, 6, 0, 0, 0, 0, 0, 0, 0, 0, 2, 7, 7, 7, 7, 7, 7, 7, 7, 7, 7, 7, 7, 7, 7,
    7,
];
const MARLIN_COL: [usize; 32] = [
    4, 5, 5, 6, 6, 7, 7, 7, 8, 9, 10, 11, 12, 13, 14, 15, 15, 15, 15, 15, 15, 15, 15, 15, 15, 15,
    15, 15, 15, 15, 15, 15,
];

fn f(v: u64) -> Scalar {
    Scalar::from_u64(v)
}

fn setup() -> PfrPublicKey {
    PfrPublicKey::setup(N, M, T, &mut ark_std::test_rng())
}

fn default_stmt(pk: &PfrPublicKey) -> PfrStatement {
    commit_statement(pk, &ROW, &COL, &mut ark_std::test_rng(), &mut None)
}

fn round1(pk: &PfrPublicKey) -> pfr::Round1State {
    let stmt = default_stmt(pk);
    round_one(pk, &ROW, &COL, &stmt, &mut ark_std::test_rng(), &mut None)
}

// --- Round 1 ---

/// R(κ^i) = Δ^{r_i} for all i
#[test]
fn round1_r_poly() {
    let pk = setup();
    let s = round1(&pk);
    let poly = &s.polynomials[0];
    for (i, &r) in ROW.iter().enumerate() {
        assert_eq!(
            poly.evaluate(&pk.k_domain.element(i)),
            pk.d_domain.element(r),
            "R(κ^{i}) ≠ Δ^{r}"
        );
    }
}

/// C(κ^i) = Δ^{c_i} for all i
#[test]
fn round1_c_poly() {
    let pk = setup();
    let s = round1(&pk);
    let poly = &s.polynomials[1];
    for (i, &c) in COL.iter().enumerate() {
        assert_eq!(
            poly.evaluate(&pk.k_domain.element(i)),
            pk.d_domain.element(c),
            "C(κ^{i}) ≠ Δ^{c}"
        );
    }
}

/// m(ω^j) = m_j for all j (multiplicity polynomial over H)
#[test]
fn round1_m_poly() {
    let pk = setup();
    let s = round1(&pk);
    let poly = &s.polynomials[2];
    for j in 0..N {
        assert_eq!(
            poly.evaluate(&pk.h_domain.element(j)),
            f(MULTS[j]),
            "m(ω^{j}) ≠ {}",
            MULTS[j]
        );
    }
}

/// S(X) = R_S·X + ρ_S·z_K(X): degree ≤ m+1
#[test]
fn round1_s_poly_shape() {
    let pk = setup();
    let s = round1(&pk);
    let poly = &s.polynomials[3];
    assert!(
        poly.degree() <= M + 1,
        "deg S = {} > m+1 = {}",
        poly.degree(),
        M + 1
    );
}

/// row̃(κ^i) = ω^{r_i} for all i  (index 7)
#[test]
fn round1_rowtilde_poly() {
    let pk = setup();
    let s = round1(&pk);
    let poly = &s.polynomials[7];
    for (i, &r) in ROW.iter().enumerate() {
        assert_eq!(
            poly.evaluate(&pk.k_domain.element(i)),
            pk.h_domain.element(r),
            "row̃(κ^{i}) ≠ ω^{r}"
        );
    }
}

/// (row̃ − row)(X) vanishes on K for any blinding randomness
#[test]
fn round1_rowtilde_minus_row_vanishes_on_k() {
    let pk = setup();
    let s = round1(&pk);
    let row_poly = &s.polynomials[4];
    let rowtilde_poly = &s.polynomials[7];
    let diff = rowtilde_poly.sub(row_poly);
    for i in 0..M {
        assert_eq!(
            diff.evaluate(&pk.k_domain.element(i)),
            Scalar::zero(),
            "(row̃ − row)(κ^{i}) ≠ 0"
        );
    }
}

/// Cached r_evals / c_evals / m_evals match polynomial evaluations
#[test]
fn round1_cached_evals_consistent() {
    let pk = setup();
    let s = round1(&pk);
    let r_poly = &s.polynomials[0];
    let c_poly = &s.polynomials[1];
    let m_poly = &s.polynomials[2];
    for i in 0..M {
        let ki = pk.k_domain.element(i);
        assert_eq!(r_poly.evaluate(&ki), s.r_evals[i], "r_evals[{i}] inconsistent");
        assert_eq!(c_poly.evaluate(&ki), s.c_evals[i], "c_evals[{i}] inconsistent");
        assert_eq!(m_poly.evaluate(&ki), s.m_evals[i], "m_evals[{i}] inconsistent");
    }
}

// --- Round 2 ---

/// F_j(κ^i) matches the closed-form formulas from eq. (8)
#[test]
fn round2_f_poly_evals() {
    let pk = setup();
    let r1 = round1(&pk);
    let beta = f(42);
    let r2 = round_two(&pk, &r1, beta, &mut ark_std::test_rng(), &mut None);
    let big_delta = pk.d_domain.element(1);
    let delta_t_inv = big_delta.pow(T as u64).inverse().unwrap();

    for i in 0..M {
        let ki = pk.k_domain.element(i);
        let r = r1.r_evals[i];
        let c = r1.c_evals[i];
        let h = pk.d_domain.element(i); // h(κ^i) = Δ^i
        let m = r1.m_evals[i];

        let f1 = r2.polynomials[0].evaluate(&ki);
        let f2 = r2.polynomials[1].evaluate(&ki);
        let f3 = r2.polynomials[2].evaluate(&ki);
        let f4 = r2.polynomials[3].evaluate(&ki);
        let f5 = r2.polynomials[4].evaluate(&ki);

        assert_eq!(f1, beta.add(&r).inverse().unwrap(), "F₁(κ^{i})");
        assert_eq!(f2, beta.add(&c).inverse().unwrap(), "F₂(κ^{i})");
        assert_eq!(
            f3,
            beta.add(&c.mul(&big_delta.mul(&r).inverse().unwrap())).inverse().unwrap(),
            "F₃(κ^{i})"
        );
        assert_eq!(f4, beta.add(&c.mul(&delta_t_inv)).inverse().unwrap(), "F₄(κ^{i})");
        assert_eq!(f5, m.mul(&beta.add(&h).inverse().unwrap()).neg(), "F₅(κ^{i})");
    }
}

fn check_round2_sumcheck(pk: &PfrPublicKey, row: &[usize], col: &[usize]) {
    let m = row.len();
    let stmt = commit_statement(pk, row, col, &mut ark_std::test_rng(), &mut None);
    let r1 = round_one(pk, row, col, &stmt, &mut ark_std::test_rng(), &mut None);
    let beta = f(42);
    let r2 = round_two(pk, &r1, beta, &mut ark_std::test_rng(), &mut None);

    let mut sum = Scalar::zero();
    for i in 0..m {
        let ki = pk.k_domain.element(i);
        for p in r2.polynomials.iter() {
            sum = sum.add(&p.evaluate(&ki));
        }
    }

    assert_eq!(
        sum,
        Scalar::zero(),
        "∑ Fⱼ(κ^i) ≠ 0  (n={}, m={m})",
        pk.h_domain.size()
    );
}

/// ∑_{i=0}^{m-1} (F₁+F₂+F₃+F₄+F₅)(κ^i) = 0  (the rational-sumcheck identity, eq. 7)
#[test]
fn round2_sumcheck() {
    check_round2_sumcheck(&setup(), &ROW, &COL);
}

/// Same sumcheck but with m > n (n=4, m=8): K strictly larger than H.
#[test]
fn round2_sumcheck_m_double_n() {
    let row: &[usize] = &[0, 1, 0, 2, 0, 1, 2, 0];
    let col: &[usize] = &[1, 2, 2, 3, 3, 3, 3, 1];
    let pk = PfrPublicKey::setup(4, row.len(), 1, &mut ark_std::test_rng());
    check_round2_sumcheck(&pk, row, col);
}

#[test]
fn round2_sumcheck_holds_for_marlin_shared_relation_indices_standalone() {
    let pk = PfrPublicKey::setup(16, MARLIN_ROW.len(), 4, &mut ark_std::test_rng());
    let stmt = commit_statement(&pk, &MARLIN_ROW, &MARLIN_COL, &mut ark_std::test_rng(), &mut None);
    let r1 = round_one(&pk, &MARLIN_ROW, &MARLIN_COL, &stmt, &mut ark_std::test_rng(), &mut None);
    let beta = f(42);
    let r2 = round_two(&pk, &r1, beta, &mut ark_std::test_rng(), &mut None);

    let mut sum = Scalar::zero();
    for i in 0..MARLIN_ROW.len() {
        let ki = pk.k_domain.element(i);
        for p in r2.polynomials.iter() {
            sum = sum.add(&p.evaluate(&ki));
        }
    }

    assert_eq!(
        sum,
        Scalar::zero(),
        "the Marlin-derived indices should satisfy eq. (7) when PFR builds its own statement"
    );
}

// --- Round 3 ---

/// Each F_j identity from P(X) vanishes on K.
#[test]
fn round3_p_identities_vanish_on_k() {
    let pk = setup();
    let r1 = round1(&pk);
    let beta = f(42);
    let r2 = round_two(&pk, &r1, beta, &mut ark_std::test_rng(), &mut None);

    let big_delta = pk.big_delta();
    let delta_t_inv = big_delta.pow(T as u64).inverse().unwrap();
    // z_{K\H} = 1 when K = H
    let zkh = Scalar::one();
    let one = Scalar::one();

    for i in 0..M {
        let ki = pk.k_domain.element(i);

        let r = r1.polynomials[0].evaluate(&ki);
        let c = r1.polynomials[1].evaluate(&ki);
        let m = r1.polynomials[2].evaluate(&ki);
        let h = pk.h_poly.evaluate(&ki);

        let f1 = r2.polynomials[0].evaluate(&ki);
        let f2 = r2.polynomials[1].evaluate(&ki);
        let f3 = r2.polynomials[2].evaluate(&ki);
        let f4 = r2.polynomials[3].evaluate(&ki);
        let f5 = r2.polynomials[4].evaluate(&ki);

        assert_eq!(f1.mul(&beta.add(&r)).sub(&one), Scalar::zero(), "η⁰ identity failed at κ^{i}");
        assert_eq!(f2.mul(&beta.add(&c)).sub(&one), Scalar::zero(), "η¹ identity failed at κ^{i}");
        let c_over_delta_r = c.mul(&big_delta.mul(&r).inverse().unwrap());
        assert_eq!(
            f3.mul(&beta.add(&c_over_delta_r)).sub(&one),
            Scalar::zero(),
            "η² identity failed at κ^{i}"
        );
        assert_eq!(
            f4.mul(&beta.add(&c.mul(&delta_t_inv))).sub(&one),
            Scalar::zero(),
            "η³ identity failed at κ^{i}"
        );
        assert_eq!(
            f5.mul(&beta.add(&h)).add(&m.mul(&zkh)),
            Scalar::zero(),
            "η⁴ identity failed at κ^{i}"
        );
    }
}

/// Round-3 polynomial degrees are within the theoretical bounds.
#[test]
fn round3_poly_degrees() {
    let pk = setup();
    let r1 = round1(&pk);
    let r2 = round_two(&pk, &r1, f(42), &mut ark_std::test_rng(), &mut None);
    let r3 = round_three(&pk, &r1, &r2, f(17), &mut None);

    let r_star = &r3.polynomials[0];
    let q = &r3.polynomials[1];

    assert_eq!(r_star.degree(), 5, "deg R* should be m+1 = 5 for m=4");
    assert!(
        q.degree() <= 2 * M + 3,
        "deg q = {} should be ≤ 2m+3 = {} for m={M}",
        q.degree(),
        2 * M + 3
    );
}

/// η⁴ identity F₅(β+h) + m·z_{K\H} = 0 holds on K for m>n.
#[test]
fn round3_eta4_identity_m_double_n() {
    let row: &[usize] = &[0, 1, 0, 2, 0, 1, 2, 0];
    let col: &[usize] = &[1, 2, 2, 3, 3, 3, 3, 1];
    let n = 4;
    let t = 1;
    let m = row.len();
    let pk = PfrPublicKey::setup(n, m, t, &mut ark_std::test_rng());
    let stmt = commit_statement(&pk, row, col, &mut ark_std::test_rng(), &mut None);
    let r1 = round_one(&pk, row, col, &stmt, &mut ark_std::test_rng(), &mut None);
    let beta = f(42);
    let r2 = round_two(&pk, &r1, beta, &mut ark_std::test_rng(), &mut None);

    // z_{K\H} polynomial as the prover builds it: (n/m)·(X^m-1)/(X^n-1)
    let steps = m / n;
    let scale_factor = f(n as u64).mul(&f(m as u64).inverse().unwrap());
    let mut coeffs = vec![Scalar::zero(); (steps - 1) * n + 1];
    for k in 0..steps {
        coeffs[k * n] = scale_factor;
    }
    let zkh = Poly::from_coefficients_vec(coeffs);

    let f5_poly = &r2.polynomials[4];
    let m_poly = &r1.polynomials[2];
    for i in 0..m {
        let ki = pk.k_domain.element(i);
        let f5 = f5_poly.evaluate(&ki);
        let h = pk.h_poly.evaluate(&ki);
        let mv = m_poly.evaluate(&ki);
        let zkh_val = zkh.evaluate(&ki);
        assert_eq!(
            f5.mul(&beta.add(&h)).add(&mv.mul(&zkh_val)),
            Scalar::zero(),
            "η⁴ identity failed at κ^{i} (in_H={})",
            i % (m / n) == 0
        );
    }
}

#[test]
fn round2_sumcheck_m_four_times_n() {
    let row: &[usize] = &[0, 1, 0, 2, 0, 1, 2, 0, 1, 0, 0, 2, 1, 0, 1, 2];
    let col: &[usize] = &[1, 2, 2, 3, 3, 3, 3, 1, 3, 2, 1, 3, 2, 3, 2, 3];
    let pk = PfrPublicKey::setup(4, row.len(), 1, &mut ark_std::test_rng());
    check_round2_sumcheck(&pk, row, col);
}

/// R² = row, C² = col and rowcol = row̃·col at every point of K.
#[test]
fn round1_square_roots_on_k() {
    let pk = setup();
    let stmt = default_stmt(&pk);
    let r1 = round_one(&pk, &ROW, &COL, &stmt, &mut ark_std::test_rng(), &mut None);
    for i in 0..M {
        let ki = pk.k_domain.element(i);
        let r = r1.polynomials[0].evaluate(&ki);
        let c = r1.polynomials[1].evaluate(&ki);
        let rowtilde = r1.polynomials[7].evaluate(&ki);
        assert_eq!(r.mul(&r), stmt.row_poly.evaluate(&ki));
        assert_eq!(c.mul(&c), stmt.col_poly.evaluate(&ki));
        assert_eq!(stmt.rowcol_poly.evaluate(&ki), rowtilde.mul(&stmt.col_poly.evaluate(&ki)));
    }
}

/// Round 3's q is the exact quotient of P − η⁹·R_F by z_K: at a point off
/// K and off the coset, q(x)·(x^m − 1) = P(x) − η⁹·R_F(x), with
/// R_F(x) = x·R*(x)/U(x) and P the batched identity of round 3.
#[test]
fn round3_q_is_exact_quotient_off_the_coset() {
    let pk = setup();
    let r1 = round1(&pk);
    let beta = f(42);
    let eta = f(17);
    let r2 = round_two(&pk, &r1, beta, &mut ark_std::test_rng(), &mut None);
    let r3 = round_three(&pk, &r1, &r2, eta, &mut None);

    let x = f(123_456_789);
    let one = Scalar::one();
    let delta = pk.big_delta();
    let delta_t = delta.pow(T as u64);
    let ev = |p: &Poly| p.evaluate(&x);
    let r = ev(&r1.polynomials[0]);
    let c = ev(&r1.polynomials[1]);
    let m = ev(&r1.polynomials[2]);
    let s = ev(&r1.polynomials[3]);
    let row = ev(&r1.polynomials[4]);
    let col = ev(&r1.polynomials[5]);
    let rc = ev(&r1.polynomials[6]);
    let rt = ev(&r1.polynomials[7]);
    let fv: Vec<Scalar> = (0..5).map(|j| ev(&r2.polynomials[j])).collect();
    let h = ev(&pk.h_poly);
    let zkh = ev(&zkh_polynomial(N, M));
    let fs = fv[0].add(&fv[1]).add(&fv[2].add(&fv[3])).add(&fv[4]).add(&eta.mul(&s));
    let dr = delta.mul(&r);
    let terms = [
        fv[0].mul(&beta.add(&r)).sub(&one),
        fv[1].mul(&beta.add(&c)).sub(&one),
        fv[2].mul(&beta.mul(&dr).add(&c)).sub(&dr),
        fv[3].mul(&beta.mul(&delta_t).add(&c)).sub(&delta_t),
        fv[4].mul(&beta.add(&h)).add(&m.mul(&zkh)),
        r.mul(&r).sub(&row),
        c.mul(&c).sub(&col),
        rc.sub(&rt.mul(&col)),
        rt.sub(&row),
        fs,
    ];
    let mut p = Scalar::zero();
    for (k, t) in terms.iter().enumerate() {
        p = p.add(&eta.pow(k as u64).mul(t));
    }
    let u = x.pow(3).sub(&one);
    let r_f = x.mul(&ev(&r3.polynomials[0])).mul(&u.inverse().unwrap());
    let lhs = ev(&r3.polynomials[1]).mul(&x.pow(M as u64).sub(&one));
    let rhs = p.sub(&eta.pow(9).mul(&r_f));
    assert_eq!(lhs, rhs);
}
