//! The five-round PFR prover and the statement commitment.
//!
//! Every round is a function from the previous rounds' state and the
//! verifier's challenge to the next state; [`prove`] runs them in order,
//! drawing the challenges from a Fiat–Shamir transcript of the commitments
//! sent so far.  The operation counter receives one entry for every FFT,
//! inverse FFT, MSM, batch inversion and field inversion, at the places
//! where the protocol performs them.
use vstd::prelude::*;
use crate::commit::{g1_in_group, kzg_commit, kzg_commitment, rand_clone, Commitment, Rand};
use crate::transcript::Transcript;
use crate::counting::{
    counter_after, counter_after_all, counter_view, lemma_after_all_push, record_batch_inv,
    record_fft, record_ifft, record_msm_g1, record_op, Op, OpCounts,
};
use crate::field::{fadd, finv, fmul, fneg, fpow, fsub, inverse_known, lemma_ops_canonical, Scalar};
use crate::poly::{all_wf, coset_point, interpolation, poly_eval, truncated, vals, Domain, Poly};
use crate::types::{
    challenge_alpha, challenge_beta, challenge_delta, challenge_eta, mult_count, round_four_message,
    round_one_message, round_three_message, round_two_message, valid_pairs, PfrProof, PfrPublicInputs, PfrPublicKey, PfrStatement,
};
use ark_std::rand::rngs::StdRng;

verus! {

// ---------------------------------------------------------------------------
// Blinding
// ---------------------------------------------------------------------------

/// `p(X) = ip(X) + rho(X)·(X^size − 1)` as functions.
pub open spec fn blinding_of(p: Poly, ip: Seq<int>, rho: Seq<int>, size: nat) -> bool {
    forall|x: int|
        #[trigger] p.eval(x) == fadd(
            poly_eval(ip, x),
            fmul(poly_eval(rho, x), fsub(fpow(x, size), 1)),
        )
}

/// `p` is the interpolant of `evals` over `domain` plus a multiple
/// `rho(X)·z(X)` of the domain's vanishing polynomial `z`, with `rho` of
/// `rho_len` coefficients.
pub open spec fn blinded_interpolant(p: Poly, domain: Domain, evals: Seq<Scalar>, rho_len: nat) -> bool {
    exists|ip: Seq<int>, rho: Seq<int>|
        #[trigger] blinding_of(p, ip, rho, domain.size as nat) && ip.len() <= domain.size
            && rho.len() == rho_len && forall|i: int|
            0 <= i < domain.size ==> #[trigger] poly_eval(ip, domain.point(i)) == evals[i].val()
}

/// Interpolate `evals` over `domain` and blind with ρ(X)·z(X), where ρ is a
/// random polynomial of degree `rho_degree`.
///
/// - `rho_degree = 1`: used for R, C, F₁–F₅, row̃
/// - `rho_degree = 0`: used for m
fn blind_over_domain(
    evals: Vec<Scalar>,
    domain: Domain,
    vanishing: &Poly,
    rho_degree: usize,
    rng: &mut StdRng,
) -> (r: Poly)
    requires
        domain.wf(),
        domain.size <= 0x8000_0000,
        evals.len() == domain.size,
        all_wf(evals@),
        vanishing.wf(),
        vanishing.len() <= domain.size + 1,
        forall|x: int| #[trigger] vanishing.eval(x) == fsub(fpow(x, domain.size as nat), 1),
        forall|i: int| 0 <= i < domain.size ==> #[trigger] vanishing.eval(domain.point(i)) == 0,
        rho_degree <= 1,
    ensures
        r.wf(),
        r.len() <= domain.size + rho_degree + 1,
        forall|i: int| 0 <= i < domain.size ==> #[trigger] r.eval(domain.point(i)) == evals@[i].val(),
        blinded_interpolant(r, domain, evals@, (rho_degree + 1) as nat),
{
    let interp = domain.interpolate(&evals);
    let mut rho_coeffs: Vec<Scalar> = Vec::new();
    let mut k: usize = 0;
    while k <= rho_degree
        invariant
            k <= rho_degree + 1,
            rho_degree <= 1,
            rho_coeffs.len() == k,
            all_wf(rho_coeffs@),
        decreases rho_degree + 1 - k,
    {
        rho_coeffs.push(Scalar::random(rng));
        k = k + 1;
    }
    let rho = Poly::from_coefficients_vec(rho_coeffs);
    let masked = rho.mul(vanishing);
    let r = interp.add(&masked);
    assert forall|x: int| #[trigger] r.eval(x) == fadd(
        poly_eval(interp.cv(), x),
        fmul(poly_eval(rho.cv(), x), fsub(fpow(x, domain.size as nat), 1)),
    ) by {
        assert(r.eval(x) == fadd(interp.eval(x), masked.eval(x)));
        assert(masked.eval(x) == fmul(rho.eval(x), vanishing.eval(x)));
    }
    assert(blinding_of(r, interp.cv(), rho.cv(), domain.size as nat));
    assert(rho.cv().len() == rho_degree + 1);
    assert forall|i: int| 0 <= i < domain.size implies #[trigger] poly_eval(
        interp.cv(),
        domain.point(i),
    ) == evals@[i].val() by {
        assert(interp.eval(domain.point(i)) == evals@[i].val());
    }
    assert forall|i: int| 0 <= i < domain.size implies #[trigger] r.eval(domain.point(i))
        == evals@[i].val() by {
        reveal(fmul);
        reveal(fadd);
        let x = domain.point(i);
        assert(r.eval(x) == fadd(interp.eval(x), masked.eval(x)));
        assert(masked.eval(x) == fmul(rho.eval(x), vanishing.eval(x)));
        assert(fmul(rho.eval(x), 0) == 0);
        vstd::arithmetic::div_mod::lemma_small_mod(evals@[i].val() as nat, crate::field::modulus() as nat);
    }
    r
}

/// Records `op` `count` times.
fn record_repeated(counter: &mut Option<OpCounts>, op: Op, count: usize)
    ensures
        counter_view(*final(counter)) == counter_after_all(
            counter_view(*old(counter)),
            Seq::new(count as nat, |k: int| op),
        ),
{
    let ghost c0 = counter_view(*counter);
    let mut k: usize = 0;
    while k < count
        invariant
            k <= count,
            counter_view(*counter) == counter_after_all(c0, Seq::new(k as nat, |j: int| op)),
        decreases count - k,
    {
        proof {
            lemma_after_all_push(c0, Seq::new(k as nat, |j: int| op), op);
            assert(Seq::new(k as nat, |j: int| op).push(op) =~= Seq::new((k + 1) as nat, |j: int| op));
        }
        record_op(counter, op);
        k = k + 1;
    }
}

/// A copy of a vector of scalars.
fn copy_scalars(v: &Vec<Scalar>) -> (r: Vec<Scalar>)
    ensures
        r@ == v@,
{
    let r = v.clone();
    assert(r@ =~= v@);
    r
}

/// The values `d.point(idx)` of the domain elements at the given indices.
fn domain_elements_at(d: &Domain, indices: &[usize]) -> (r: Vec<Scalar>)
    requires
        d.wf(),
    ensures
        r.len() == indices@.len(),
        all_wf(r@),
        forall|i: int| 0 <= i < indices@.len() ==> #[trigger] r@[i].val() == d.point(indices@[i] as int),
{
    let mut r: Vec<Scalar> = Vec::new();
    let mut i: usize = 0;
    while i < indices.len()
        invariant
            i <= indices@.len(),
            d.wf(),
            r.len() == i,
            all_wf(r@),
            forall|j: int| 0 <= j < i ==> #[trigger] r@[j].val() == d.point(indices@[j] as int),
        decreases indices@.len() - i,
    {
        r.push(d.element(indices[i]));
        i = i + 1;
    }
    r
}

// ---------------------------------------------------------------------------
// Statement commitment
// ---------------------------------------------------------------------------

/// The operations that committing to a statement records.
pub open spec fn statement_ops(m: usize) -> Seq<Op> {
    seq![Op::Ifft(m), Op::Ifft(m), Op::Ifft(m), Op::MsmG1(m), Op::MsmG1(m), Op::MsmG1(m)]
}

/// The statement's polynomials are the interpolations over K of the row
/// values, the column values and their products.
pub open spec fn statement_polys(
    pk: &PfrPublicKey,
    stmt: &PfrStatement,
    row_vals: Seq<int>,
    col_vals: Seq<int>,
) -> bool {
    let m = pk.m as nat;
    &&& stmt.row_poly.cv() == interpolation(row_vals, m)
    &&& stmt.col_poly.cv() == interpolation(col_vals, m)
    &&& stmt.rowcol_poly.cv() == interpolation(
        Seq::new(m, |i: int| fmul(row_vals[i], col_vals[i])),
        m,
    )
}

/// A statement is determined by the row and column values: two statements
/// whose polynomials interpolate the same values over K and whose
/// commitments are those of their polynomials under one key have the same
/// coefficients and the same commitments.  So `commit_statement` and
/// `commit_statement_from_evals` agree when the evaluations are ω^{r_i} and
/// ω^{c_i}.
pub proof fn law_statement_determined_by_values(
    pk: &PfrPublicKey,
    a: &PfrStatement,
    b: &PfrStatement,
    row_vals: Seq<int>,
    col_vals: Seq<int>,
)
    requires
        statement_polys(pk, a, row_vals, col_vals),
        statement_polys(pk, b, row_vals, col_vals),
        statement_committed(pk, a),
        statement_committed(pk, b),
    ensures
        a.row_poly.cv() == b.row_poly.cv(),
        a.col_poly.cv() == b.col_poly.cv(),
        a.rowcol_poly.cv() == b.rowcol_poly.cv(),
        a.row_comm.bytes@ == b.row_comm.bytes@,
        a.col_comm.bytes@ == b.col_comm.bytes@,
        a.rowcol_comm.bytes@ == b.rowcol_comm.bytes@,
{
}

/// The statement's commitments are points of G1, those of its three
/// polynomials under the key.
pub open spec fn statement_committed(pk: &PfrPublicKey, stmt: &PfrStatement) -> bool {
    &&& g1_in_group(stmt.row_comm.bytes@)
    &&& g1_in_group(stmt.col_comm.bytes@)
    &&& g1_in_group(stmt.rowcol_comm.bytes@)
    &&& stmt.row_comm.bytes@ == kzg_commitment(pk.ck.g1_powers(), stmt.row_poly.cv())
    &&& stmt.col_comm.bytes@ == kzg_commitment(pk.ck.g1_powers(), stmt.col_poly.cv())
    &&& stmt.rowcol_comm.bytes@ == kzg_commitment(pk.ck.g1_powers(), stmt.rowcol_poly.cv())
}

/// The statement polynomials take the values `row_vals`, `col_vals` and
/// their products on K, and have at most `m` coefficients.
pub open spec fn statement_interpolates(
    pk: &PfrPublicKey,
    stmt: &PfrStatement,
    row_vals: Seq<int>,
    col_vals: Seq<int>,
) -> bool {
    &&& stmt.row_poly.wf()
    &&& stmt.col_poly.wf()
    &&& stmt.rowcol_poly.wf()
    &&& stmt.row_poly.len() <= pk.m
    &&& stmt.col_poly.len() <= pk.m
    &&& stmt.rowcol_poly.len() <= pk.m
    &&& forall|i: int|
        0 <= i < pk.m ==> #[trigger] stmt.row_poly.eval(pk.k_domain.point(i)) == row_vals[i]
    &&& forall|i: int|
        0 <= i < pk.m ==> #[trigger] stmt.col_poly.eval(pk.k_domain.point(i)) == col_vals[i]
    &&& forall|i: int|
        0 <= i < pk.m ==> #[trigger] stmt.rowcol_poly.eval(pk.k_domain.point(i)) == fmul(
            row_vals[i],
            col_vals[i],
        )
}

/// Interpolate the three statement polynomials over K from the values of
/// row(X) and col(X), commit to them, and record the work.
fn build_statement(
    pk: &PfrPublicKey,
    row_evals: Vec<Scalar>,
    col_evals: Vec<Scalar>,
    counter: &mut Option<OpCounts>,
) -> (stmt: PfrStatement)
    requires
        pk.wf(),
        row_evals.len() == pk.m,
        col_evals.len() == pk.m,
        all_wf(row_evals@),
        all_wf(col_evals@),
    ensures
        statement_interpolates(pk, &stmt, vals(row_evals@), vals(col_evals@)),
        statement_polys(pk, &stmt, vals(row_evals@), vals(col_evals@)),
        statement_committed(pk, &stmt),
        counter_view(*final(counter)) == counter_after_all(
            counter_view(*old(counter)),
            statement_ops(pk.m),
        ),
{
    let ghost c0 = counter_view(*counter);
    let m = pk.m;
    let mut rowcol_evals: Vec<Scalar> = Vec::new();
    let mut i: usize = 0;
    while i < m
        invariant
            i <= m,
            m == pk.m,
            row_evals.len() == m,
            col_evals.len() == m,
            all_wf(row_evals@),
            all_wf(col_evals@),
            rowcol_evals.len() == i,
            all_wf(rowcol_evals@),
            forall|j: int|
                0 <= j < i ==> #[trigger] rowcol_evals@[j].val() == fmul(
                    row_evals@[j].val(),
                    col_evals@[j].val(),
                ),
        decreases m - i,
    {
        rowcol_evals.push(row_evals[i].mul(&col_evals[i]));
        i = i + 1;
    }

    proof {
        assert(vals(rowcol_evals@) =~= Seq::new(
            m as nat,
            |i: int| fmul(vals(row_evals@)[i], vals(col_evals@)[i]),
        ));
    }
    record_ifft(counter, pk.k_domain.size());
    let row_poly = pk.k_domain.interpolate(&row_evals);
    record_ifft(counter, pk.k_domain.size());
    let col_poly = pk.k_domain.interpolate(&col_evals);
    record_ifft(counter, pk.k_domain.size());
    let rowcol_poly = pk.k_domain.interpolate(&rowcol_evals);

    // KZG commit: 3 polys of degree m-1, no hiding, no degree bound → 3 × MSM_G1(m)
    record_msm_g1(counter, pk.k_domain.size());
    record_msm_g1(counter, pk.k_domain.size());
    record_msm_g1(counter, pk.k_domain.size());
    proof {
        let s = statement_ops(m);
        lemma_after_all_push(c0, s.take(0), s[0]);
        assert(s.take(1) =~= s.take(0).push(s[0]));
        lemma_after_all_push(c0, s.take(1), s[1]);
        assert(s.take(2) =~= s.take(1).push(s[1]));
        lemma_after_all_push(c0, s.take(2), s[2]);
        assert(s.take(3) =~= s.take(2).push(s[2]));
        lemma_after_all_push(c0, s.take(3), s[3]);
        assert(s.take(4) =~= s.take(3).push(s[3]));
        lemma_after_all_push(c0, s.take(4), s[4]);
        assert(s.take(5) =~= s.take(4).push(s[4]));
        lemma_after_all_push(c0, s.take(5), s[5]);
        assert(s =~= s.take(5).push(s[5]));
        assert(s.take(0) =~= Seq::<Op>::empty());
    }
    let mut polys: Vec<Poly> = Vec::new();
    polys.push(row_poly);
    polys.push(col_poly);
    polys.push(rowcol_poly);
    let (mut comms, mut rands) = kzg_commit(&pk.ck, &polys);
    let rowcol_poly = polys.pop().unwrap();
    let col_poly = polys.pop().unwrap();
    let row_poly = polys.pop().unwrap();
    let rowcol_rand = rands.remove(2);
    let col_rand = rands.remove(1);
    let row_rand = rands.remove(0);
    let rowcol_comm = comms.remove(2);
    let col_comm = comms.remove(1);
    let row_comm = comms.remove(0);

    PfrStatement {
        row_poly,
        col_poly,
        rowcol_poly,
        row_comm,
        col_comm,
        rowcol_comm,
        row_rand,
        col_rand,
        rowcol_rand,
    }
}

/// Commit to the three public index polynomials row(X), col(X), rowcol(X).
///
/// This is the *statement* phase: it must be run before [`prove`] and the
/// resulting [`PfrStatement`] is passed into it.
///
/// | Polynomial | Encoding at κ^i          |
/// |------------|---------------------------|
/// | row(X)     | ω^{r_i}                   |
/// | col(X)     | ω^{c_i}                   |
/// | rowcol(X)  | ω^{r_i} · ω^{c_i}         |
///
/// The commitments are not hiding, so `rng` is not drawn from.
pub fn commit_statement(
    pk: &PfrPublicKey,
    row_indices: &[usize],
    col_indices: &[usize],
    rng: &mut StdRng,
    counter: &mut Option<OpCounts>,
) -> (stmt: PfrStatement)
    requires
        pk.wf(),
        row_indices@.len() == pk.m,
        col_indices@.len() == pk.m,
    ensures
        statement_interpolates(
            pk,
            &stmt,
            Seq::new(pk.m as nat, |i: int| pk.h_domain.point(row_indices@[i] as int)),
            Seq::new(pk.m as nat, |i: int| pk.h_domain.point(col_indices@[i] as int)),
        ),
        statement_polys(
            pk,
            &stmt,
            Seq::new(pk.m as nat, |i: int| pk.h_domain.point(row_indices@[i] as int)),
            Seq::new(pk.m as nat, |i: int| pk.h_domain.point(col_indices@[i] as int)),
        ),
        statement_committed(pk, &stmt),
        counter_view(*final(counter)) == counter_after_all(
            counter_view(*old(counter)),
            statement_ops(pk.m),
        ),
{
    let mut row_evals: Vec<Scalar> = Vec::new();
    let mut col_evals: Vec<Scalar> = Vec::new();
    let mut i: usize = 0;
    while i < pk.m
        invariant
            i <= pk.m,
            pk.wf(),
            row_indices@.len() == pk.m,
            col_indices@.len() == pk.m,
            row_evals.len() == i,
            col_evals.len() == i,
            all_wf(row_evals@),
            all_wf(col_evals@),
            forall|j: int|
                0 <= j < i ==> #[trigger] row_evals@[j].val() == pk.h_domain.point(
                    row_indices@[j] as int,
                ),
            forall|j: int|
                0 <= j < i ==> #[trigger] col_evals@[j].val() == pk.h_domain.point(
                    col_indices@[j] as int,
                ),
        decreases pk.m - i,
    {
        row_evals.push(pk.h_domain.element(row_indices[i]));
        col_evals.push(pk.h_domain.element(col_indices[i]));
        i = i + 1;
    }
    let ghost rv = Seq::new(pk.m as nat, |i: int| pk.h_domain.point(row_indices@[i] as int));
    let ghost cv = Seq::new(pk.m as nat, |i: int| pk.h_domain.point(col_indices@[i] as int));
    assert(vals(row_evals@) =~= rv);
    assert(vals(col_evals@) =~= cv);
    build_statement(pk, row_evals, col_evals, counter)
}

/// Commit to the statement polynomials using pre-computed field-element
/// evaluations (ω^{r_i}, ω^{c_i} already computed).
pub fn commit_statement_from_evals(
    pk: &PfrPublicKey,
    row_evals: Vec<Scalar>,
    col_evals: Vec<Scalar>,
    rng: &mut StdRng,
    counter: &mut Option<OpCounts>,
) -> (stmt: PfrStatement)
    requires
        pk.wf(),
        row_evals.len() == pk.m,
        col_evals.len() == pk.m,
        all_wf(row_evals@),
        all_wf(col_evals@),
    ensures
        statement_interpolates(pk, &stmt, vals(row_evals@), vals(col_evals@)),
        statement_polys(pk, &stmt, vals(row_evals@), vals(col_evals@)),
        statement_committed(pk, &stmt),
        counter_view(*final(counter)) == counter_after_all(
            counter_view(*old(counter)),
            statement_ops(pk.m),
        ),
{
    build_statement(pk, row_evals, col_evals, counter)
}

// ---------------------------------------------------------------------------
// Round 1
// ---------------------------------------------------------------------------

/// Prover state after Round 1.
pub struct Round1State {
    /// Polynomials [R, C, m, S, row, col, rowcol, rowtilde].
    ///
    /// | Index | Label       | Definition                               |
    /// |-------|-------------|------------------------------------------|
    /// | 0     | R           | R(κ^i) = Δ^{r_i}                         |
    /// | 1     | C           | C(κ^i) = Δ^{c_i}                         |
    /// | 2     | m           | m(ω^j) = m_j                             |
    /// | 3     | S           | S(X) = R_S·X + ρ_S·z_K                   |
    /// | 4     | row         | row(κ^i) = ω^{r_i}   (statement poly)    |
    /// | 5     | col         | col(κ^i) = ω^{c_i}   (statement poly)    |
    /// | 6     | rowcol      | rowcol(κ^i) = ω^{r_i}·ω^{c_i} (statement)|
    /// | 7     | rowtilde    | row̃(κ^i) = ω^{r_i} + ρ_row·z_K (blinded) |
    pub polynomials: [Poly; 8],
    /// r_evals[i] = R(κ^i) = Δ^{r_i}
    pub r_evals: Vec<Scalar>,
    /// c_evals[i] = C(κ^i) = Δ^{c_i}
    pub c_evals: Vec<Scalar>,
    /// m_evals[j] = m_j  (same as m(κ^j) when K = H)
    pub m_evals: Vec<Scalar>,
    /// R_S: the linear coefficient of S(X) = R_S·X + ρ_S·z_K(X)
    pub r_s: Scalar,
    /// ρ_S: the blinding scalar of S(X)
    pub rho_s: Scalar,
    /// Evaluations of all 8 polynomials over the coset of pk.coset_domain.
    /// Index order matches `polynomials`.
    pub coset_evals: [Vec<Scalar>; 8],
    /// Commitment randomness (filled in by prove() after committing)
    pub rands: Vec<Rand>,
}

/// `evals` are the values of `p` (cut to its first `2m` coefficients) on
/// the coset of the domain of size `2m`.
pub open spec fn coset_values_of(p: Poly, evals: Seq<Scalar>, m: nat) -> bool {
    &&& evals.len() == 2 * m
    &&& all_wf(evals)
    &&& forall|i: int|
        0 <= i < 2 * m ==> #[trigger] evals[i].val() == poly_eval(
            truncated(p.cv(), 2 * m),
            coset_point(2 * m, i as nat),
        )
}

impl Round1State {
    /// The internal consistency that later rounds rely on: canonical
    /// values, the sizes of the evaluation vectors and polynomials, the
    /// cached evaluations agreeing with the polynomials on K and H, and the
    /// coset evaluations being those of the polynomials.
    pub open spec fn consistent(&self, pk: &PfrPublicKey) -> bool {
        &&& forall|j: int| 0 <= j < 8 ==> (#[trigger] self.polynomials[j]).wf()
        &&& self.polynomials[0].len() <= pk.m + 2
        &&& self.polynomials[1].len() <= pk.m + 2
        &&& self.polynomials[2].len() <= pk.n + 1
        &&& self.polynomials[3].len() <= pk.m + 2
        &&& self.polynomials[7].len() <= pk.m + 2
        &&& self.r_evals.len() == pk.m
        &&& self.c_evals.len() == pk.m
        &&& self.m_evals.len() == pk.n
        &&& all_wf(self.r_evals@)
        &&& all_wf(self.c_evals@)
        &&& all_wf(self.m_evals@)
        &&& forall|i: int|
            0 <= i < pk.m ==> #[trigger] self.polynomials[0].eval(pk.k_domain.point(i))
                == self.r_evals@[i].val()
        &&& forall|i: int|
            0 <= i < pk.m ==> #[trigger] self.polynomials[1].eval(pk.k_domain.point(i))
                == self.c_evals@[i].val()
        &&& forall|j: int|
            0 <= j < pk.n ==> #[trigger] self.polynomials[2].eval(pk.h_domain.point(j))
                == self.m_evals@[j].val()
        &&& forall|j: int|
            0 <= j < 8 ==> coset_values_of(
                self.polynomials[j],
                (#[trigger] self.coset_evals[j])@,
                pk.m as nat,
            )
    }
}

/// What round 1 returns for the index pairs `rows`, `cols` and the
/// statement `stmt`: R, C, m interpolate Δ^{r_i}, Δ^{c_i}, m_j on K, K, H
/// (plus a random multiple of the vanishing polynomial), S has the shape
/// R_S·X + ρ_S·z_K, row, col, rowcol are the statement's polynomials, and
/// row̃ agrees with row on K.
pub open spec fn round_one_spec(
    pk: &PfrPublicKey,
    rows: Seq<usize>,
    cols: Seq<usize>,
    stmt: &PfrStatement,
    s: &Round1State,
) -> bool {
    &&& s.consistent(pk)
    &&& forall|i: int|
        0 <= i < pk.m ==> #[trigger] s.r_evals@[i].val() == pk.d_domain.point(
            rows[i] as int,
        )
    &&& forall|i: int|
        0 <= i < pk.m ==> #[trigger] s.c_evals@[i].val() == pk.d_domain.point(
            cols[i] as int,
        )
    &&& forall|j: int|
        0 <= j < pk.n ==> #[trigger] s.m_evals@[j].val() == mult_count(
            rows,
            cols,
            pk.t as int,
            pk.m as int,
            j,
        )
    &&& blinded_interpolant(s.polynomials[0], pk.k_domain, s.r_evals@, 2)
    &&& blinded_interpolant(s.polynomials[1], pk.k_domain, s.c_evals@, 2)
    &&& blinded_interpolant(s.polynomials[2], pk.h_domain, s.m_evals@, 1)
    &&& s.r_s.wf()
    &&& s.rho_s.wf()
    &&& forall|x: int|
        #[trigger] s.polynomials[3].eval(x) == fadd(
            fmul(s.r_s.val(), x),
            fmul(s.rho_s.val(), fsub(fpow(x, pk.m as nat), 1)),
        )
    &&& s.polynomials[4].coeffs@ == stmt.row_poly.coeffs@
    &&& s.polynomials[5].coeffs@ == stmt.col_poly.coeffs@
    &&& s.polynomials[6].coeffs@ == stmt.rowcol_poly.coeffs@
    &&& forall|i: int|
        0 <= i < pk.m ==> #[trigger] s.polynomials[7].eval(pk.k_domain.point(i))
            == stmt.row_poly.eval(pk.k_domain.point(i))
    &&& exists|row_vals: Seq<Scalar>|
        #![trigger blinded_interpolant(s.polynomials[7], pk.k_domain, row_vals, 2)]
        blinded_interpolant(s.polynomials[7], pk.k_domain, row_vals, 2)
            && row_vals.len() == pk.m && forall|i: int|
            0 <= i < pk.m ==> #[trigger] row_vals[i].val() == stmt.row_poly.eval(
                pk.k_domain.point(i),
            )
}

/// The operations that round 1 records.
pub open spec fn round_one_ops(n: usize, m: usize) -> Seq<Op> {
    seq![Op::Ifft(m), Op::Ifft(m), Op::Ifft(n), Op::Ifft(m)] + Seq::new(
        8,
        |k: int| Op::Fft((2 * m) as usize),
    )
}

/// **Round 1**: build R(X), C(X), m(X), S(X), row(X), col(X), rowcol(X), row̃(X).
///
/// | Paper variable | Definition                                           |
/// |----------------|------------------------------------------------------|
/// | R(X)           | R(κ^i) = Δ^{r_i}; blinded by ρ_R(X)·z_K(X)           |
/// | C(X)           | C(κ^i) = Δ^{c_i}; blinded by ρ_C(X)·z_K(X)           |
/// | m(X)           | m(ω^j) = m_j; blinded by ρ_m·z_H(X)                  |
/// | S(X)           | S(X) = R_S·X + ρ_S·z_K(X); R_S, ρ_S ← F              |
/// | row(X)         | statement polynomial (unblinded)                     |
/// | col(X)         | statement polynomial (unblinded)                     |
/// | rowcol(X)      | statement polynomial (unblinded)                     |
/// | row̃(X)         | row̃ = row on K, blinded by ρ_row(X)·z_K(X)           |
pub fn round_one(
    pk: &PfrPublicKey,
    row_indices: &[usize],
    col_indices: &[usize],
    stmt: &PfrStatement,
    rng: &mut StdRng,
    counter: &mut Option<OpCounts>,
) -> (s: Round1State)
    requires
        pk.wf(),
        row_indices@.len() == pk.m,
        col_indices@.len() == pk.m,
        valid_pairs(row_indices@, col_indices@, pk.n as int, pk.t as int, pk.m as int),
        stmt.row_poly.wf(),
        stmt.col_poly.wf(),
        stmt.rowcol_poly.wf(),
    ensures
        round_one_spec(pk, row_indices@, col_indices@, stmt, &s),
        s.rands.len() == 0,
        counter_view(*final(counter)) == counter_after_all(
            counter_view(*old(counter)),
            round_one_ops(pk.n, pk.m),
        ),
{
    let ghost c0 = counter_view(*counter);
    let z_k = pk.k_domain.vanishing_polynomial();
    let z_h = pk.h_domain.vanishing_polynomial();

    // R(X): R(κ^i) = Δ^{r_i}, blinded by ρ_R(X)·z_K(X) with ρ_R ← F≤1[X]
    let r_evals = domain_elements_at(&pk.d_domain, row_indices);
    record_ifft(counter, pk.k_domain.size());
    let r_poly = blind_over_domain(copy_scalars(&r_evals), pk.k_domain, &z_k, 1, rng);

    // C(X): C(κ^i) = Δ^{c_i}, blinded by ρ_C(X)·z_K(X) with ρ_C ← F≤1[X]
    let c_evals = domain_elements_at(&pk.d_domain, col_indices);
    record_ifft(counter, pk.k_domain.size());
    let c_poly = blind_over_domain(copy_scalars(&c_evals), pk.k_domain, &z_k, 1, rng);

    // m(X): m(ω^j) = m_j, blinded by ρ_m·z_H(X) with ρ_m ← F
    let mults = pk.compute_multiplicities(row_indices, col_indices);
    let mut m_evals: Vec<Scalar> = Vec::new();
    let mut j: usize = 0;
    while j < mults.len()
        invariant
            j <= mults.len(),
            m_evals.len() == j,
            all_wf(m_evals@),
            forall|i: int| 0 <= i < j ==> #[trigger] m_evals@[i].val() == mults@[i],
        decreases mults.len() - j,
    {
        m_evals.push(Scalar::from_u64(mults[j]));
        j = j + 1;
    }
    record_ifft(counter, pk.h_domain.size());
    let m_poly = blind_over_domain(copy_scalars(&m_evals), pk.h_domain, &z_h, 0, rng);

    // S(X) = R_S·X + ρ_S·z_K(X),  R_S, ρ_S ← F
    let r_s = Scalar::random(rng);
    let rho_s = Scalar::random(rng);
    let mut lin: Vec<Scalar> = Vec::new();
    lin.push(Scalar::zero());
    lin.push(r_s);
    let lin_poly = Poly::from_coefficients_vec(lin);
    let s_poly = lin_poly.add(&z_k.scale(&rho_s));
    assert forall|x: int| #[trigger] lin_poly.eval(x) == fmul(r_s.val(), x) by {
        reveal(fmul);
        let c = lin_poly.cv();
        assert(lin_poly.coeffs@.len() == 2);
        assert(c.len() == 2 && c[0] == 0 && c[1] == r_s.val());
        assert(c.drop_first().len() == 1 && c.drop_first()[0] == r_s.val());
        assert(c.drop_first().drop_first().len() == 0);
        assert(poly_eval(c.drop_first().drop_first(), x) == 0);
        assert(poly_eval(c.drop_first(), x) == (r_s.val() + x * 0) % crate::field::modulus());
        vstd::arithmetic::div_mod::lemma_small_mod(r_s.val() as nat, crate::field::modulus() as nat);
        vstd::arithmetic::mul::lemma_mul_is_commutative(x, r_s.val());
    }

    // row̃(X) = row(X) + ρ_row(X)·z_K(X) on K, ρ_row ← F≤1[X]
    let mut row_evals: Vec<Scalar> = Vec::new();
    let mut i: usize = 0;
    while i < pk.m
        invariant
            i <= pk.m,
            pk.wf(),
            stmt.row_poly.wf(),
            row_evals.len() == i,
            all_wf(row_evals@),
            forall|k: int|
                0 <= k < i ==> #[trigger] row_evals@[k].val() == stmt.row_poly.eval(
                    pk.k_domain.point(k),
                ),
        decreases pk.m - i,
    {
        row_evals.push(stmt.row_poly.evaluate(&pk.k_domain.element(i)));
        i = i + 1;
    }
    record_ifft(counter, pk.k_domain.size());
    let ghost row_vals = row_evals@;
    let rowtilde_poly = blind_over_domain(row_evals, pk.k_domain, &z_k, 1, rng);

    // Copies of the statement polynomials.
    let row_poly = stmt.row_poly.duplicate();
    let col_poly = stmt.col_poly.duplicate();
    let rowcol_poly = stmt.rowcol_poly.duplicate();

    let polys = [r_poly, c_poly, m_poly, s_poly, row_poly, col_poly, rowcol_poly, rowtilde_poly];

    // Evaluate all 8 polynomials over the coset domain for use in round 3.
    // 8 × coset_FFT of size 2m
    record_repeated(counter, Op::Fft(pk.coset_domain.size()), 8);
    let coset_evals = [
        pk.coset_domain.coset_fft(&polys[0]),
        pk.coset_domain.coset_fft(&polys[1]),
        pk.coset_domain.coset_fft(&polys[2]),
        pk.coset_domain.coset_fft(&polys[3]),
        pk.coset_domain.coset_fft(&polys[4]),
        pk.coset_domain.coset_fft(&polys[5]),
        pk.coset_domain.coset_fft(&polys[6]),
        pk.coset_domain.coset_fft(&polys[7]),
    ];
    proof {
        let ops = round_one_ops(pk.n, pk.m);
        let first = seq![Op::Ifft(pk.m), Op::Ifft(pk.m), Op::Ifft(pk.n), Op::Ifft(pk.m)];
        assert(first =~= seq![Op::Ifft(pk.m)].push(Op::Ifft(pk.m)).push(Op::Ifft(pk.n)).push(Op::Ifft(pk.m)));
        crate::counting::lemma_after_all_concat(c0, first, Seq::new(8, |k: int| Op::Fft((2 * pk.m) as usize)));
        assert(seq![Op::Ifft(pk.m)] =~= Seq::<Op>::empty().push(Op::Ifft(pk.m)));
        lemma_after_all_push(c0, Seq::<Op>::empty(), Op::Ifft(pk.m));
        lemma_after_all_push(c0, seq![Op::Ifft(pk.m)], Op::Ifft(pk.m));
        lemma_after_all_push(c0, seq![Op::Ifft(pk.m)].push(Op::Ifft(pk.m)), Op::Ifft(pk.n));
        lemma_after_all_push(c0, seq![Op::Ifft(pk.m)].push(Op::Ifft(pk.m)).push(Op::Ifft(pk.n)), Op::Ifft(pk.m));
    }
    let s = Round1State {
        polynomials: polys,
        r_evals,
        c_evals,
        m_evals,
        r_s,
        rho_s,
        coset_evals,
        rands: Vec::new(),
    };
    s
}

// ---------------------------------------------------------------------------
// Round 2
// ---------------------------------------------------------------------------

/// Prover state after Round 2.
pub struct Round2State {
    /// Polynomials [F₁, …, F₅].
    pub polynomials: [Poly; 5],
    /// f_evals[j][i] = F_{j+1}(κ^i).
    pub f_evals: [Vec<Scalar>; 5],
    /// Evaluations of F₁..F₅ over the coset of pk.coset_domain.
    pub f_coset_evals: [Vec<Scalar>; 5],
    /// β: verifier challenge that triggered Round 2.
    pub beta: Scalar,
    /// Commitment randomness (filled in by prove() after committing)
    pub rands: Vec<Rand>,
}

impl Round2State {
    /// The internal consistency that later rounds rely on.
    pub open spec fn consistent(&self, pk: &PfrPublicKey) -> bool {
        &&& self.beta.wf()
        &&& forall|j: int| 0 <= j < 5 ==> (#[trigger] self.polynomials[j]).wf()
        &&& forall|j: int| 0 <= j < 5 ==> (#[trigger] self.polynomials[j]).len() <= pk.m + 2
        &&& forall|j: int| 0 <= j < 5 ==> (#[trigger] self.f_evals[j]).len() == pk.m
        &&& forall|j: int| 0 <= j < 5 ==> all_wf((#[trigger] self.f_evals[j])@)
        &&& forall|j: int, i: int|
            0 <= j < 5 && 0 <= i < pk.m ==> #[trigger] self.polynomials[j].eval(
                pk.k_domain.point(i),
            ) == (#[trigger] self.f_evals[j])@[i].val()
        &&& forall|j: int|
            0 <= j < 5 ==> coset_values_of(
                self.polynomials[j],
                (#[trigger] self.f_coset_evals[j])@,
                pk.m as nat,
            )
    }
}

/// `Σ_{k < s} b^k`, summed from `k = 0` up.
pub open spec fn geom_sum(b: int, s: nat) -> int
    decreases s,
{
    if s == 0 {
        0
    } else {
        fadd(geom_sum(b, (s - 1) as nat), fpow(b, (s - 1) as nat))
    }
}

/// z_{K∖H}(κ^i) = (n/m)·Σ_{k < m/n} ζ^{k·i}, with ζ = κ^n a primitive
/// (m/n)-th root of unity.
pub open spec fn zkh_on_k(pk: &PfrPublicKey, i: int) -> int {
    fmul(
        fmul(pk.n as int, finv(pk.m as int)),
        geom_sum(fpow(pk.k_domain.point(pk.n as int), i as nat), (pk.m / pk.n) as nat),
    )
}

/// F₁(κ^i) = 1 / (β + R(κ^i))
pub open spec fn f1_value(beta: int, r: int) -> int {
    finv(fadd(beta, r))
}

/// F₂(κ^i) = 1 / (β + C(κ^i))
pub open spec fn f2_value(beta: int, c: int) -> int {
    finv(fadd(beta, c))
}

/// F₃(κ^i) = 1 / (β + C(κ^i)/(Δ·R(κ^i)))
pub open spec fn f3_value(beta: int, delta: int, r: int, c: int) -> int {
    finv(fadd(beta, fmul(c, finv(fmul(delta, r)))))
}

/// F₄(κ^i) = 1 / (β + C(κ^i)/Δ^t)
pub open spec fn f4_value(beta: int, delta_t: int, c: int) -> int {
    finv(fadd(beta, fmul(c, finv(delta_t))))
}

/// F₅(κ^i) = −m(κ^i)·z_{K∖H}(κ^i) / (β + h(κ^i))
pub open spec fn f5_value(beta: int, m: int, zkh: int, h: int) -> int {
    fmul(fmul(fneg(m), zkh), finv(fadd(beta, h)))
}

/// The inverses that round 2 takes at one point κ^i exist where their
/// arguments are non-zero: those of β + R, β + C, Δ·R, β + C/(Δ·R),
/// β + C/Δᵗ and β + h.
pub open spec fn round_two_inverses(beta: int, delta: int, delta_t: int, r: int, c: int, h: int) -> bool {
    &&& inverse_known(fadd(beta, r))
    &&& inverse_known(fadd(beta, c))
    &&& inverse_known(fmul(delta, r))
    &&& inverse_known(fadd(beta, fmul(c, finv(fmul(delta, r)))))
    &&& inverse_known(fadd(beta, fmul(c, finv(delta_t))))
    &&& inverse_known(fadd(beta, h))
}

/// The values z_{K∖H}(κ^i) for i < m.
fn zkh_values(pk: &PfrPublicKey) -> (r: Vec<Scalar>)
    requires
        pk.wf(),
    ensures
        r.len() == pk.m,
        all_wf(r@),
        forall|i: int| 0 <= i < pk.m ==> #[trigger] r@[i].val() == zkh_on_k(pk, i),
        inverse_known(pk.m as int),
{
    let steps = pk.m / pk.n;
    let inv_m = Scalar::from_u64(pk.m as u64).inverse_or_zero();
    proof {
        crate::field::lemma_inverse_known(pk.m as int, inv_m.val());
    }
    let scale = Scalar::from_u64(pk.n as u64).mul(&inv_m);
    // κ^n has order m/n; let ζ = κ^n.
    let zeta = pk.k_domain.element(pk.n);
    let mut r: Vec<Scalar> = Vec::new();
    let mut i: usize = 0;
    while i < pk.m
        invariant
            i <= pk.m,
            pk.wf(),
            steps == pk.m / pk.n,
            scale.wf(),
            scale.val() == fmul(pk.n as int, finv(pk.m as int)),
            zeta.wf(),
            zeta.val() == pk.k_domain.point(pk.n as int),
            r.len() == i,
            all_wf(r@),
            forall|j: int| 0 <= j < i ==> #[trigger] r@[j].val() == zkh_on_k(pk, j),
        decreases pk.m - i,
    {
        // Q(κ^i) = Σ_{k<steps} ζ^{k·i}
        let base = zeta.pow(i as u64);
        let mut q_val = Scalar::zero();
        let mut power = Scalar::one();
        proof {
            vstd::arithmetic::div_mod::lemma_small_mod(1, crate::field::modulus() as nat);
            vstd::arithmetic::power::lemma_pow0(base.val());
        }
        let mut k: usize = 0;
        while k < steps
            invariant
                k <= steps,
                base.wf(),
                q_val.wf(),
                power.wf(),
                q_val.val() == geom_sum(base.val(), k as nat),
                power.val() == fpow(base.val(), k as nat),
            decreases steps - k,
        {
            q_val = q_val.add(&power);
            proof {
                crate::field::lemma_fpow_step(base.val(), k as nat);
            }
            power = power.mul(&base);
            k = k + 1;
        }
        r.push(scale.mul(&q_val));
        i = i + 1;
    }
    r
}

/// The values m(κ^i) and h(κ^i) for i < m.
fn m_and_h_on_k(pk: &PfrPublicKey, round1: &Round1State) -> (r: (Vec<Scalar>, Vec<Scalar>))
    requires
        pk.wf(),
        round1.consistent(pk),
    ensures
        r.0.len() == pk.m,
        r.1.len() == pk.m,
        all_wf(r.0@),
        all_wf(r.1@),
        forall|i: int|
            0 <= i < pk.m ==> #[trigger] r.0@[i].val() == round1.polynomials[2].eval(
                pk.k_domain.point(i),
            ),
        forall|i: int|
            0 <= i < pk.m ==> #[trigger] r.1@[i].val() == pk.h_poly.eval(pk.k_domain.point(i)),
{
    if pk.n == pk.m {
        // K = H: m(ω^i) = m_i and h(ω^i) = Δ^i are known directly.
        let m_at = copy_scalars(&round1.m_evals);
        let mut h_at: Vec<Scalar> = Vec::new();
        let mut i: usize = 0;
        while i < pk.m
            invariant
                i <= pk.m,
                pk.wf(),
                pk.n == pk.m,
                h_at.len() == i,
                all_wf(h_at@),
                forall|j: int|
                    0 <= j < i ==> #[trigger] h_at@[j].val() == pk.h_poly.eval(pk.k_domain.point(j)),
            decreases pk.m - i,
        {
            h_at.push(pk.d_domain.element(i));
            proof {
                assert(pk.h_poly.eval(pk.h_domain.point(i as int)) == pk.d_domain.point(i as int));
            }
            i = i + 1;
        }
        assert forall|i: int| 0 <= i < pk.m implies #[trigger] m_at@[i].val()
            == round1.polynomials[2].eval(pk.k_domain.point(i)) by {
            assert(round1.polynomials[2].eval(pk.h_domain.point(i)) == round1.m_evals@[i].val());
        }
        (m_at, h_at)
    } else {
        // K ⊋ H: evaluate over K by FFT.
        assert(pk.m >= pk.n + 1) by (nonlinear_arith)
            requires
                pk.m % pk.n == 0,
                1 <= pk.n < pk.m,
        {
            vstd::arithmetic::div_mod::lemma_fundamental_div_mod(pk.m as int, pk.n as int);
        }
        let m_at = pk.k_domain.evaluate_over_domain(&round1.polynomials[2]);
        let h_at = pk.k_domain.evaluate_over_domain(&pk.h_poly);
        assert(truncated(round1.polynomials[2].cv(), pk.m as nat) == round1.polynomials[2].cv());
        assert(truncated(pk.h_poly.cv(), pk.m as nat) == pk.h_poly.cv());
        (m_at, h_at)
    }
}

/// The elements `v[start..start + len]`.
fn sub_vec(v: &Vec<Scalar>, start: usize, len: usize) -> (r: Vec<Scalar>)
    requires
        start + len <= v.len(),
    ensures
        r@ == v@.subrange(start as int, start + len),
{
    let mut r: Vec<Scalar> = Vec::new();
    let mut i: usize = 0;
    while i < len
        invariant
            i <= len,
            start + len <= v.len(),
            r@ == v@.subrange(start as int, start + i),
        decreases len - i,
    {
        r.push(v[start + i]);
        i = i + 1;
        assert(r@ =~= v@.subrange(start as int, start + i));
    }
    r
}

/// The values F₁(κ^i), …, F₅(κ^i) from the values of R, C, m, h and
/// z_{K∖H} on K, with two batch inversions (recorded on the counter).
fn f_value_vectors(
    pk: &PfrPublicKey,
    r_at: &Vec<Scalar>,
    c_at: &Vec<Scalar>,
    m_at: &Vec<Scalar>,
    h_at: &Vec<Scalar>,
    zkh_at: &Vec<Scalar>,
    beta: Scalar,
    counter: &mut Option<OpCounts>,
) -> (f: [Vec<Scalar>; 5])
    requires
        pk.wf(),
        5 * pk.m <= usize::MAX,
        r_at.len() == pk.m,
        c_at.len() == pk.m,
        m_at.len() == pk.m,
        h_at.len() == pk.m,
        zkh_at.len() == pk.m,
        all_wf(r_at@),
        all_wf(c_at@),
        all_wf(m_at@),
        all_wf(h_at@),
        all_wf(zkh_at@),
        beta.wf(),
    ensures
        forall|j: int| 0 <= j < 5 ==> (#[trigger] f[j]).len() == pk.m,
        forall|j: int| 0 <= j < 5 ==> all_wf((#[trigger] f[j])@),
        forall|i: int|
            0 <= i < pk.m ==> #[trigger] f[0]@[i].val() == f1_value(beta.val(), r_at@[i].val()),
        forall|i: int|
            0 <= i < pk.m ==> #[trigger] f[1]@[i].val() == f2_value(beta.val(), c_at@[i].val()),
        forall|i: int|
            0 <= i < pk.m ==> #[trigger] f[2]@[i].val() == f3_value(
                beta.val(),
                pk.d_domain.point(1),
                r_at@[i].val(),
                c_at@[i].val(),
            ),
        forall|i: int|
            0 <= i < pk.m ==> #[trigger] f[3]@[i].val() == f4_value(
                beta.val(),
                fpow(pk.d_domain.point(1), pk.t as nat),
                c_at@[i].val(),
            ),
        forall|i: int|
            0 <= i < pk.m ==> #[trigger] f[4]@[i].val() == f5_value(
                beta.val(),
                m_at@[i].val(),
                zkh_at@[i].val(),
                h_at@[i].val(),
            ),
        inverse_known(fpow(pk.d_domain.point(1), pk.t as nat)),
        forall|i: int|
            0 <= i < pk.m ==> #[trigger] round_two_inverses(
                beta.val(),
                pk.d_domain.point(1),
                fpow(pk.d_domain.point(1), pk.t as nat),
                r_at@[i].val(),
                c_at@[i].val(),
                h_at@[i].val(),
            ),
        counter_view(*final(counter)) == counter_after_all(
            counter_view(*old(counter)),
            seq![Op::BatchInv(pk.m), Op::BatchInv((5 * pk.m) as usize)],
        ),
{
    let ghost c0 = counter_view(*counter);
    let m = pk.m;
    // Δ = generator of D
    let big_delta = pk.big_delta();
    let big_delta_t = big_delta.pow(pk.t as u64);
    // Δᵗ is a single scalar — one inversion outside the batch.
    let delta_t_inv = big_delta_t.inverse_or_zero();

    // Pass 1: batch-invert Δ·R(κ^i)
    record_batch_inv(counter, m);
    let mut delta_r: Vec<Scalar> = Vec::new();
    let mut i: usize = 0;
    while i < m
        invariant
            i <= m,
            m == r_at.len(),
            all_wf(r_at@),
            big_delta.wf(),
            delta_r.len() == i,
            all_wf(delta_r@),
            forall|k: int|
                0 <= k < i ==> #[trigger] delta_r@[k].val() == fmul(big_delta.val(), r_at@[k].val()),
        decreases m - i,
    {
        delta_r.push(big_delta.mul(&r_at[i]));
        i = i + 1;
    }
    let ghost delta_r0 = delta_r@;
    crate::field::batch_inversion(&mut delta_r);

    // Pass 2: the 5m denominators, in blocks F3, F1, F4, F2, F5.
    record_batch_inv(counter, 5 * m);
    let mut d0: Vec<Scalar> = Vec::new();
    let mut d1: Vec<Scalar> = Vec::new();
    let mut d2: Vec<Scalar> = Vec::new();
    let mut d3: Vec<Scalar> = Vec::new();
    let mut d4: Vec<Scalar> = Vec::new();
    let mut i: usize = 0;
    while i < m
        invariant
            i <= m,
            m == r_at.len(),
            m == c_at.len(),
            m == h_at.len(),
            m == delta_r.len(),
            all_wf(r_at@),
            all_wf(c_at@),
            all_wf(h_at@),
            all_wf(delta_r@),
            beta.wf(),
            delta_t_inv.wf(),
            d0.len() == i,
            d1.len() == i,
            d2.len() == i,
            d3.len() == i,
            d4.len() == i,
            all_wf(d0@),
            all_wf(d1@),
            all_wf(d2@),
            all_wf(d3@),
            all_wf(d4@),
            forall|k: int|
                0 <= k < i ==> #[trigger] d0@[k].val() == fadd(
                    beta.val(),
                    fmul(c_at@[k].val(), delta_r@[k].val()),
                ),
            forall|k: int| 0 <= k < i ==> #[trigger] d1@[k].val() == fadd(beta.val(), r_at@[k].val()),
            forall|k: int|
                0 <= k < i ==> #[trigger] d2@[k].val() == fadd(
                    beta.val(),
                    fmul(c_at@[k].val(), delta_t_inv.val()),
                ),
            forall|k: int| 0 <= k < i ==> #[trigger] d3@[k].val() == fadd(beta.val(), c_at@[k].val()),
            forall|k: int| 0 <= k < i ==> #[trigger] d4@[k].val() == fadd(beta.val(), h_at@[k].val()),
        decreases m - i,
    {
        d0.push(beta.add(&c_at[i].mul(&delta_r[i])));
        d1.push(beta.add(&r_at[i]));
        d2.push(beta.add(&c_at[i].mul(&delta_t_inv)));
        d3.push(beta.add(&c_at[i]));
        d4.push(beta.add(&h_at[i]));
        i = i + 1;
    }
    let ghost g0 = d0@;
    let ghost g1 = d1@;
    let ghost g2 = d2@;
    let ghost g3 = d3@;
    let ghost g4 = d4@;
    let mut denoms: Vec<Scalar> = Vec::new();
    denoms.append(&mut d0);
    denoms.append(&mut d1);
    denoms.append(&mut d2);
    denoms.append(&mut d3);
    denoms.append(&mut d4);
    let ghost denoms0 = denoms@;
    assert(denoms0 =~= g0 + g1 + g2 + g3 + g4);
    assert(denoms0.len() == 5 * m);
    assert forall|k: int| 0 <= k < denoms0.len() implies (#[trigger] denoms0[k]).wf() by {
        if k < m {
        } else if k < 2 * m {
            assert(denoms0[k] == g1[k - m]);
        } else if k < 3 * m {
            assert(denoms0[k] == g2[k - 2 * m]);
        } else if k < 4 * m {
            assert(denoms0[k] == g3[k - 3 * m]);
        } else {
            assert(denoms0[k] == g4[k - 4 * m]);
        }
    }
    crate::field::batch_inversion(&mut denoms);

    let f3_evals = sub_vec(&denoms, 0, m);
    let f1_evals = sub_vec(&denoms, m, m);
    let f4_evals = sub_vec(&denoms, 2 * m, m);
    let f2_evals = sub_vec(&denoms, 3 * m, m);
    // F₅(κ^i) = −m(κ^i) · z_{K∖H}(κ^i) · (β + h(κ^i))⁻¹
    let mut f5_evals: Vec<Scalar> = Vec::new();
    let mut i: usize = 0;
    while i < m
        invariant
            i <= m,
            m == m_at.len(),
            m == zkh_at.len(),
            denoms.len() == 5 * m,
            all_wf(m_at@),
            all_wf(zkh_at@),
            all_wf(denoms@),
            f5_evals.len() == i,
            all_wf(f5_evals@),
            forall|k: int|
                0 <= k < i ==> #[trigger] f5_evals@[k].val() == fmul(
                    fmul(fneg(m_at@[k].val()), zkh_at@[k].val()),
                    denoms@[4 * m + k].val(),
                ),
        decreases m - i,
    {
        f5_evals.push(m_at[i].neg().mul(&zkh_at[i]).mul(&denoms[4 * m + i]));
        i = i + 1;
    }
    proof {
        assert forall|k: int| 0 <= k < m implies #[trigger] f1_evals@[k].val() == f1_value(
            beta.val(),
            r_at@[k].val(),
        ) by {
            assert(denoms0[m + k] == g1[k]);
        }
        assert forall|k: int| 0 <= k < m implies #[trigger] f2_evals@[k].val() == f2_value(
            beta.val(),
            c_at@[k].val(),
        ) by {
            assert(denoms0[3 * m + k] == g3[k]);
        }
        assert forall|k: int| 0 <= k < m implies #[trigger] f3_evals@[k].val() == f3_value(
            beta.val(),
            pk.d_domain.point(1),
            r_at@[k].val(),
            c_at@[k].val(),
        ) by {
            assert(denoms0[k] == g0[k]);
            assert(delta_r0[k].val() == fmul(big_delta.val(), r_at@[k].val()));
        }
        assert forall|k: int| 0 <= k < m implies #[trigger] f4_evals@[k].val() == f4_value(
            beta.val(),
            fpow(pk.d_domain.point(1), pk.t as nat),
            c_at@[k].val(),
        ) by {
            assert(denoms0[2 * m + k] == g2[k]);
        }
        assert forall|k: int| 0 <= k < m implies #[trigger] f5_evals@[k].val() == f5_value(
            beta.val(),
            m_at@[k].val(),
            zkh_at@[k].val(),
            h_at@[k].val(),
        ) by {
            assert(denoms0[4 * m + k] == g4[k]);
        }
        crate::field::lemma_inverse_known(big_delta_t.val(), delta_t_inv.val());
        assert forall|k: int| 0 <= k < m implies #[trigger] round_two_inverses(
            beta.val(),
            pk.d_domain.point(1),
            fpow(pk.d_domain.point(1), pk.t as nat),
            r_at@[k].val(),
            c_at@[k].val(),
            h_at@[k].val(),
        ) by {
            assert(denoms0[k] == g0[k]);
            assert(denoms0[m + k] == g1[k]);
            assert(denoms0[2 * m + k] == g2[k]);
            assert(denoms0[3 * m + k] == g3[k]);
            assert(denoms0[4 * m + k] == g4[k]);
            crate::field::lemma_inverse_known(denoms0[k].val(), denoms@[k].val());
            crate::field::lemma_inverse_known(denoms0[m + k].val(), denoms@[m + k].val());
            crate::field::lemma_inverse_known(denoms0[2 * m + k].val(), denoms@[2 * m + k].val());
            crate::field::lemma_inverse_known(denoms0[3 * m + k].val(), denoms@[3 * m + k].val());
            crate::field::lemma_inverse_known(denoms0[4 * m + k].val(), denoms@[4 * m + k].val());
            crate::field::lemma_inverse_known(delta_r0[k].val(), delta_r@[k].val());
        }
        lemma_after_all_push(c0, Seq::<Op>::empty(), Op::BatchInv(m));
        lemma_after_all_push(c0, seq![Op::BatchInv(m)], Op::BatchInv((5 * m) as usize));
        assert(Seq::<Op>::empty().push(Op::BatchInv(m)) =~= seq![Op::BatchInv(m)]);
        assert(seq![Op::BatchInv(m)].push(Op::BatchInv((5 * m) as usize)) =~= seq![
            Op::BatchInv(m),
            Op::BatchInv((5 * m) as usize),
        ]);
    }
    [f1_evals, f2_evals, f3_evals, f4_evals, f5_evals]
}

/// The operations that round 2 records.
pub open spec fn round_two_ops(m: usize) -> Seq<Op> {
    seq![Op::BatchInv(m), Op::BatchInv((5 * m) as usize)] + Seq::new(5, |k: int| Op::Ifft(m))
        + Seq::new(5, |k: int| Op::Fft((2 * m) as usize))
}

/// What round 2 returns for the Round-1 state `r1` and the challenge β:
/// F₁, …, F₅ interpolate on K (plus a random multiple of z_K) the values of
/// eq. (8) computed from R(κ^i), C(κ^i), m(κ^i), h(κ^i) and z_{K∖H}(κ^i),
/// and the inverses taken there exist.
pub open spec fn round_two_spec(pk: &PfrPublicKey, r1: &Round1State, beta: Scalar, s: &Round2State) -> bool {
    let delta = pk.d_domain.point(1);
    let delta_t = fpow(delta, pk.t as nat);
    &&& s.consistent(pk)
    &&& s.beta == beta
    &&& forall|i: int|
        0 <= i < pk.m ==> #[trigger] s.f_evals[0]@[i].val() == f1_value(
            beta.val(),
            r1.r_evals@[i].val(),
        )
    &&& forall|i: int|
        0 <= i < pk.m ==> #[trigger] s.f_evals[1]@[i].val() == f2_value(
            beta.val(),
            r1.c_evals@[i].val(),
        )
    &&& forall|i: int|
        0 <= i < pk.m ==> #[trigger] s.f_evals[2]@[i].val() == f3_value(
            beta.val(),
            delta,
            r1.r_evals@[i].val(),
            r1.c_evals@[i].val(),
        )
    &&& forall|i: int|
        0 <= i < pk.m ==> #[trigger] s.f_evals[3]@[i].val() == f4_value(
            beta.val(),
            delta_t,
            r1.c_evals@[i].val(),
        )
    &&& forall|i: int|
        0 <= i < pk.m ==> #[trigger] s.f_evals[4]@[i].val() == f5_value(
            beta.val(),
            r1.polynomials[2].eval(pk.k_domain.point(i)),
            zkh_on_k(pk, i),
            pk.h_poly.eval(pk.k_domain.point(i)),
        )
    &&& forall|j: int|
        0 <= j < 5 ==> blinded_interpolant(#[trigger] s.polynomials[j], pk.k_domain, s.f_evals[j]@, 2)
    &&& inverse_known(delta_t)
    &&& inverse_known(pk.m as int)
    &&& forall|i: int|
        0 <= i < pk.m ==> #[trigger] round_two_inverses(
            beta.val(),
            delta,
            delta_t,
            r1.r_evals@[i].val(),
            r1.c_evals@[i].val(),
            pk.h_poly.eval(pk.k_domain.point(i)),
        )
}

/// Interpolate `evals` over K, blind with ρ(X)·z_K(X), and record the
/// inverse FFT.
fn blind_over_k(
    pk: &PfrPublicKey,
    evals: &Vec<Scalar>,
    z_k: &Poly,
    rng: &mut StdRng,
    counter: &mut Option<OpCounts>,
) -> (r: Poly)
    requires
        pk.wf(),
        evals.len() == pk.m,
        all_wf(evals@),
        z_k.wf(),
        z_k.len() == pk.m + 1,
        forall|x: int| #[trigger] z_k.eval(x) == fsub(fpow(x, pk.m as nat), 1),
        forall|i: int| 0 <= i < pk.m ==> #[trigger] z_k.eval(pk.k_domain.point(i)) == 0,
    ensures
        r.wf(),
        r.len() <= pk.m + 2,
        forall|i: int| 0 <= i < pk.m ==> #[trigger] r.eval(pk.k_domain.point(i)) == evals@[i].val(),
        blinded_interpolant(r, pk.k_domain, evals@, 2),
        counter_view(*final(counter)) == counter_after(counter_view(*old(counter)), Op::Ifft(pk.m)),
{
    record_ifft(counter, pk.k_domain.size());
    blind_over_domain(copy_scalars(evals), pk.k_domain, z_k, 1, rng)
}

/// **Round 2**: given verifier challenge β, compute F₁, …, F₅.
///
/// The five sequences (eq. 8, evaluated at κ^i):
///
/// | Paper variable | Formula                             |
/// |--------------- |-------------------------------------|
/// | F₁(κ^i)        | 1 / (β + R(κ^i))                    |
/// | F₂(κ^i)        | 1 / (β + C(κ^i))                    |
/// | F₃(κ^i)        | 1 / (β + C(κ^i)/(Δ·R(κ^i)))         |
/// | F₄(κ^i)        | 1 / (β + C(κ^i)/Δ^t)                |
/// | F₅(κ^i)        | −m(κ^i)·z_{K∖H}(κ^i) / (β + h(κ^i)) |
///
/// A zero denominator gives the value 0 (batch inversion leaves zeros).
pub fn round_two(
    pk: &PfrPublicKey,
    round1: &Round1State,
    beta: Scalar,
    rng: &mut StdRng,
    counter: &mut Option<OpCounts>,
) -> (s: Round2State)
    requires
        pk.wf(),
        5 * pk.m <= usize::MAX,
        round1.consistent(pk),
        beta.wf(),
    ensures
        round_two_spec(pk, round1, beta, &s),
        s.rands.len() == 0,
        counter_view(*final(counter)) == counter_after_all(
            counter_view(*old(counter)),
            round_two_ops(pk.m),
        ),
{
    let ghost c0 = counter_view(*counter);
    let (m_at, h_at) = m_and_h_on_k(pk, round1);
    let zkh_at = zkh_values(pk);
    let f = f_value_vectors(pk, &round1.r_evals, &round1.c_evals, &m_at, &h_at, &zkh_at, beta, counter);
    let ghost c1 = counter_view(*counter);

    // Interpolate each F_j over K, then blind with ρ_j(X)·z_K(X), ρ_j ← F≤1[X]
    let z_k = pk.k_domain.vanishing_polynomial();
    let f1_poly = blind_over_k(pk, &f[0], &z_k, rng, counter);
    let f2_poly = blind_over_k(pk, &f[1], &z_k, rng, counter);
    let f3_poly = blind_over_k(pk, &f[2], &z_k, rng, counter);
    let f4_poly = blind_over_k(pk, &f[3], &z_k, rng, counter);
    let f5_poly = blind_over_k(pk, &f[4], &z_k, rng, counter);
    let ghost c2 = counter_view(*counter);
    let f_polys = [f1_poly, f2_poly, f3_poly, f4_poly, f5_poly];

    // Evaluate blinded F polynomials over the coset for use in round 3.
    // 5 × coset_FFT(2m)
    record_repeated(counter, Op::Fft(pk.coset_domain.size()), 5);
    let f_coset_evals = [
        pk.coset_domain.coset_fft(&f_polys[0]),
        pk.coset_domain.coset_fft(&f_polys[1]),
        pk.coset_domain.coset_fft(&f_polys[2]),
        pk.coset_domain.coset_fft(&f_polys[3]),
        pk.coset_domain.coset_fft(&f_polys[4]),
    ];
    proof {
        let a = seq![Op::BatchInv(pk.m), Op::BatchInv((5 * pk.m) as usize)];
        let b = Seq::new(5, |k: int| Op::Ifft(pk.m));
        let c = Seq::new(5, |k: int| Op::Fft((2 * pk.m) as usize));
        let e = Seq::<Op>::empty();
        assert(b =~= e.push(Op::Ifft(pk.m)).push(Op::Ifft(pk.m)).push(Op::Ifft(pk.m)).push(Op::Ifft(pk.m)).push(Op::Ifft(pk.m)));
        lemma_after_all_push(c1, e, Op::Ifft(pk.m));
        lemma_after_all_push(c1, e.push(Op::Ifft(pk.m)), Op::Ifft(pk.m));
        lemma_after_all_push(c1, e.push(Op::Ifft(pk.m)).push(Op::Ifft(pk.m)), Op::Ifft(pk.m));
        lemma_after_all_push(c1, e.push(Op::Ifft(pk.m)).push(Op::Ifft(pk.m)).push(Op::Ifft(pk.m)), Op::Ifft(pk.m));
        lemma_after_all_push(c1, e.push(Op::Ifft(pk.m)).push(Op::Ifft(pk.m)).push(Op::Ifft(pk.m)).push(Op::Ifft(pk.m)), Op::Ifft(pk.m));
        assert(c2 == counter_after_all(c1, b));
        crate::counting::lemma_after_all_concat(c0, a, b);
        crate::counting::lemma_after_all_concat(c0, a + b, c);
        assert(round_two_ops(pk.m) =~= a + b + c);
        assert forall|i: int| 0 <= i < pk.m implies #[trigger] round_two_inverses(
            beta.val(),
            pk.d_domain.point(1),
            fpow(pk.d_domain.point(1), pk.t as nat),
            round1.r_evals@[i].val(),
            round1.c_evals@[i].val(),
            pk.h_poly.eval(pk.k_domain.point(i)),
        ) by {
            assert(h_at@[i].val() == pk.h_poly.eval(pk.k_domain.point(i)));
            assert(round_two_inverses(
                beta.val(),
                pk.d_domain.point(1),
                fpow(pk.d_domain.point(1), pk.t as nat),
                round1.r_evals@[i].val(),
                round1.c_evals@[i].val(),
                h_at@[i].val(),
            ));
        }
    }
    let s = Round2State {
        polynomials: f_polys,
        f_evals: f,
        f_coset_evals,
        beta,
        rands: Vec::new(),
    };
    s
}

// ---------------------------------------------------------------------------
// Round 3
// ---------------------------------------------------------------------------

/// Prover state after Round 3.
pub struct Round3State {
    /// Polynomials [R*, q].
    ///
    /// | Index | Label  | Definition                      |
    /// |-------|--------|---------------------------------|
    /// | 0     | r_star | R*(X) = R_F(X) · U(X)           |
    /// | 1     | q      | q(X) = P(X) / (z_K(X) · U(X))   |
    pub polynomials: Vec<Poly>,
    /// U(X) = X³ − 1, stored to avoid recomputing in round_five.
    pub u_poly: Poly,
    /// η: verifier challenge that triggered Round 3.
    pub eta: Scalar,
    /// η⁹ (the last power of η used in P), stored for use in Lin(X).
    pub eta9: Scalar,
    /// Commitment randomness (filled in by prove() after committing)
    pub rands: Vec<Rand>,
}

/// The coefficients of U(X) = X³ − 1.
pub open spec fn u_coeffs() -> Seq<int> {
    seq![crate::field::modulus() - 1, 0, 0, 1]
}

/// The batched identity P at one point, from the values there of
/// R, C, m, row, col, rowcol, row̃, F₁..F₅, h, z_{K∖H} and ΣFⱼ + η·S:
///
///   F₁(β + R) − 1
/// + η  (F₂(β + C) − 1)
/// + η² (F₃(β·Δ·R + C) − Δ·R)
/// + η³ (F₄(β·Δᵗ + C) − Δᵗ)
/// + η⁴ (F₅(β + h) + m·z_{K∖H})
/// + η⁵ (R² − row)
/// + η⁶ (C² − col)
/// + η⁷ (rowcol − row̃·col)
/// + η⁸ (row̃ − row)
/// + η⁹ (ΣFⱼ + η·S)
pub open spec fn batched_terms(
    beta: int,
    delta: int,
    delta_t: int,
    eta: int,
    r: int,
    c: int,
    m: int,
    row: int,
    col: int,
    rc: int,
    rt: int,
    f: Seq<int>,
    h: int,
    zkh: int,
    fss: int,
) -> int {
    let s0 = fsub(fmul(f[0], fadd(beta, r)), 1);
    let s1 = fadd(s0, fmul(fpow(eta, 1), fsub(fmul(f[1], fadd(beta, c)), 1)));
    let dr = fmul(delta, r);
    let s2 = fadd(s1, fmul(fpow(eta, 2), fsub(fmul(f[2], fadd(fmul(beta, dr), c)), dr)));
    let s3 = fadd(s2, fmul(fpow(eta, 3), fsub(fmul(f[3], fadd(fmul(beta, delta_t), c)), delta_t)));
    let s4 = fadd(s3, fmul(fpow(eta, 4), fadd(fmul(f[4], fadd(beta, h)), fmul(m, zkh))));
    let s5 = fadd(s4, fmul(fpow(eta, 5), fsub(fmul(r, r), row)));
    let s6 = fadd(s5, fmul(fpow(eta, 6), fsub(fmul(c, c), col)));
    let s7 = fadd(s6, fmul(fpow(eta, 7), fsub(rc, fmul(rt, col))));
    let s8 = fadd(s7, fmul(fpow(eta, 8), fsub(rt, row)));
    fadd(s8, fmul(fpow(eta, 9), fss))
}

/// The powers η⁰, …, η⁹.
pub(crate) fn eta_powers(eta: Scalar) -> (r: Vec<Scalar>)
    requires
        eta.wf(),
    ensures
        r.len() == 10,
        all_wf(r@),
        forall|k: int| 0 <= k < 10 ==> #[trigger] r@[k].val() == fpow(eta.val(), k as nat),
{
    let mut r: Vec<Scalar> = Vec::new();
    r.push(Scalar::one());
    proof {
        vstd::arithmetic::div_mod::lemma_small_mod(1, crate::field::modulus() as nat);
        vstd::arithmetic::power::lemma_pow0(eta.val());
    }
    let mut k: usize = 1;
    while k < 10
        invariant
            1 <= k <= 10,
            eta.wf(),
            r.len() == k,
            all_wf(r@),
            forall|j: int| 0 <= j < k ==> #[trigger] r@[j].val() == fpow(eta.val(), j as nat),
        decreases 10 - k,
    {
        proof {
            crate::field::lemma_fpow_step(eta.val(), (k - 1) as nat);
        }
        let next = r[k - 1].mul(&eta);
        r.push(next);
        k = k + 1;
    }
    r
}

/// One value of the batched identity P (see [`batched_terms`]).
fn batched_at(
    beta: Scalar,
    delta: Scalar,
    delta_t: Scalar,
    eta_pows: &Vec<Scalar>,
    r: Scalar,
    c: Scalar,
    m: Scalar,
    row: Scalar,
    col: Scalar,
    rc: Scalar,
    rt: Scalar,
    f: &[Scalar; 5],
    h: Scalar,
    zkh: Scalar,
    fss: Scalar,
    Ghost(eta): Ghost<int>,
) -> (s: Scalar)
    requires
        beta.wf() && delta.wf() && delta_t.wf() && r.wf() && c.wf() && m.wf(),
        row.wf() && col.wf() && rc.wf() && rt.wf() && h.wf() && zkh.wf() && fss.wf(),
        forall|j: int| 0 <= j < 5 ==> (#[trigger] f[j]).wf(),
        eta_pows.len() == 10,
        all_wf(eta_pows@),
        forall|k: int| 0 <= k < 10 ==> #[trigger] eta_pows@[k].val() == fpow(eta, k as nat),
    ensures
        s.wf(),
        s.val() == batched_terms(
            beta.val(),
            delta.val(),
            delta_t.val(),
            eta,
            r.val(),
            c.val(),
            m.val(),
            row.val(),
            col.val(),
            rc.val(),
            rt.val(),
            seq![f[0].val(), f[1].val(), f[2].val(), f[3].val(), f[4].val()],
            h.val(),
            zkh.val(),
            fss.val(),
        ),
{
    let one = Scalar::one();
    // η⁰: F₁(β + R) − 1
    let mut s = f[0].mul(&beta.add(&r)).sub(&one);
    // η¹: F₂(β + C) − 1
    s = s.add(&eta_pows[1].mul(&f[1].mul(&beta.add(&c)).sub(&one)));
    // η²: F₃(β·Δ·R + C) − Δ·R
    let delta_r = delta.mul(&r);
    s = s.add(&eta_pows[2].mul(&f[2].mul(&beta.mul(&delta_r).add(&c)).sub(&delta_r)));
    // η³: F₄(β·Δᵗ + C) − Δᵗ
    s = s.add(&eta_pows[3].mul(&f[3].mul(&beta.mul(&delta_t).add(&c)).sub(&delta_t)));
    // η⁴: F₅(β + h) + m·z_{K\H}
    s = s.add(&eta_pows[4].mul(&f[4].mul(&beta.add(&h)).add(&m.mul(&zkh))));
    // η⁵: R² − row
    s = s.add(&eta_pows[5].mul(&r.mul(&r).sub(&row)));
    // η⁶: C² − col
    s = s.add(&eta_pows[6].mul(&c.mul(&c).sub(&col)));
    // η⁷: rowcol − row̃·col
    s = s.add(&eta_pows[7].mul(&rc.sub(&rt.mul(&col))));
    // η⁸: row̃ − row
    s = s.add(&eta_pows[8].mul(&rt.sub(&row)));
    // η⁹: fs_sum
    s = s.add(&eta_pows[9].mul(&fss));
    s
}

/// (F₁ + F₂ + F₃ + F₄ + F₅)(x) + η·S(x), summed as the prover does.
pub open spec fn fs_sum_at(r1: &Round1State, r2: &Round2State, eta: int, x: int) -> int {
    fadd(
        fadd(
            fadd(
                fadd(r2.polynomials[0].eval(x), r2.polynomials[1].eval(x)),
                fadd(r2.polynomials[2].eval(x), r2.polynomials[3].eval(x)),
            ),
            r2.polynomials[4].eval(x),
        ),
        fmul(eta, r1.polynomials[3].eval(x)),
    )
}

/// The coefficients of `r(X)/X` for a polynomial `r` with `r(0) = 0` (the
/// constant coefficient is dropped).
pub open spec fn over_x(rf: Seq<int>) -> Seq<int> {
    if rf.len() == 0 {
        rf
    } else {
        rf.drop_first()
    }
}

/// The batched identity P at point `i` of the coset, from the stored
/// coset evaluations and the value `fss` of ΣFⱼ + η·S there.
pub open spec fn big_sum_on_coset(
    pk: &PfrPublicKey,
    r1: &Round1State,
    r2: &Round2State,
    eta: int,
    fss: int,
    i: int,
) -> int {
    batched_terms(
        r2.beta.val(),
        pk.d_domain.point(1),
        fpow(pk.d_domain.point(1), pk.t as nat),
        eta,
        r1.coset_evals[0]@[i].val(),
        r1.coset_evals[1]@[i].val(),
        r1.coset_evals[2]@[i].val(),
        r1.coset_evals[4]@[i].val(),
        r1.coset_evals[5]@[i].val(),
        r1.coset_evals[6]@[i].val(),
        r1.coset_evals[7]@[i].val(),
        seq![
            r2.f_coset_evals[0]@[i].val(),
            r2.f_coset_evals[1]@[i].val(),
            r2.f_coset_evals[2]@[i].val(),
            r2.f_coset_evals[3]@[i].val(),
            r2.f_coset_evals[4]@[i].val(),
        ],
        pk.h_coset_evals@[i].val(),
        pk.zkh_coset_evals@[i].val(),
        fss,
    )
}

/// What round 3 computes, given the coefficients `fsc` of ΣFⱼ + η·S and the
/// quotient `qf` and remainder `rf` of its division by z_K:
/// R*(X) = (rf(X)/X)·U(X), and q takes on the coset the values
/// (P − η⁹·rf) / z_K, where z_K has the inverses that were taken.
pub open spec fn round_three_from(
    pk: &PfrPublicKey,
    r1: &Round1State,
    r2: &Round2State,
    eta: int,
    s: &Round3State,
    fsc: Seq<int>,
    qf: Seq<int>,
    rf: Seq<int>,
) -> bool {
    let m = pk.m as nat;
    &&& fsc.len() <= m + 2
    &&& rf.len() <= m
    &&& forall|x: int| #[trigger] poly_eval(fsc, x) == fs_sum_at(r1, r2, eta, x)
    &&& forall|x: int|
        #[trigger] poly_eval(fsc, x) == fadd(
            fmul(poly_eval(qf, x), fsub(fpow(x, m), 1)),
            poly_eval(rf, x),
        )
    &&& forall|x: int|
        #[trigger] s.polynomials[0].eval(x) == fmul(
            poly_eval(over_x(rf), x),
            poly_eval(u_coeffs(), x),
        )
    &&& forall|i: int|
        0 <= i < 2 * m ==> #[trigger] s.polynomials[1].eval(coset_point(2 * m, i as nat)) == fmul(
            fsub(
                big_sum_on_coset(
                    pk,
                    r1,
                    r2,
                    eta,
                    poly_eval(truncated(fsc, 2 * m), coset_point(2 * m, i as nat)),
                    i,
                ),
                fmul(fpow(eta, 9), poly_eval(rf, coset_point(2 * m, i as nat))),
            ),
            finv(fsub(fpow(coset_point(2 * m, i as nat), m), 1)),
        )
    &&& forall|i: int|
        0 <= i < 2 * m ==> #[trigger] fmul(
            s.polynomials[1].eval(coset_point(2 * m, i as nat)),
            fsub(fpow(coset_point(2 * m, i as nat), m), 1),
        ) == fsub(
            big_sum_on_coset(
                pk,
                r1,
                r2,
                eta,
                poly_eval(truncated(fsc, 2 * m), coset_point(2 * m, i as nat)),
                i,
            ),
            fmul(fpow(eta, 9), poly_eval(rf, coset_point(2 * m, i as nat))),
        )
    &&& forall|i: int|
        0 <= i < 2 * m ==> #[trigger] inverse_known(fsub(fpow(coset_point(2 * m, i as nat), m), 1))
}

/// The operations that round 3 records.
pub open spec fn round_three_ops(m: usize) -> Seq<Op> {
    Seq::new(3, |k: int| Op::Fft((2 * m) as usize)) + Seq::new(
        (2 * m) as nat,
        |k: int| Op::FieldInv,
    ) + seq![Op::Ifft((2 * m) as usize)]
}

/// The values of the batched identity P on the coset.
fn big_sum_values(
    pk: &PfrPublicKey,
    round1: &Round1State,
    round2: &Round2State,
    eta_pows: &Vec<Scalar>,
    fss_c: &Vec<Scalar>,
    Ghost(eta): Ghost<int>,
) -> (r: Vec<Scalar>)
    requires
        pk.wf(),
        round1.consistent(pk),
        round2.consistent(pk),
        eta_pows.len() == 10,
        all_wf(eta_pows@),
        forall|k: int| 0 <= k < 10 ==> #[trigger] eta_pows@[k].val() == fpow(eta, k as nat),
        fss_c.len() == 2 * pk.m,
        all_wf(fss_c@),
    ensures
        r.len() == 2 * pk.m,
        all_wf(r@),
        forall|i: int|
            0 <= i < 2 * pk.m ==> #[trigger] r@[i].val() == big_sum_on_coset(
                pk,
                round1,
                round2,
                eta,
                fss_c@[i].val(),
                i,
            ),
{
    let beta = round2.beta;
    let big_delta = pk.big_delta();
    let big_delta_t = big_delta.pow(pk.t as u64);
    let nc = pk.coset_domain.size();
    let mut r: Vec<Scalar> = Vec::new();
    let mut i: usize = 0;
    while i < nc
        invariant
            i <= nc,
            nc == 2 * pk.m,
            pk.wf(),
            round1.consistent(pk),
            round2.consistent(pk),
            beta == round2.beta,
            big_delta.wf(),
            big_delta.val() == pk.d_domain.point(1),
            big_delta_t.wf(),
            big_delta_t.val() == fpow(pk.d_domain.point(1), pk.t as nat),
            eta_pows.len() == 10,
            all_wf(eta_pows@),
            forall|k: int| 0 <= k < 10 ==> #[trigger] eta_pows@[k].val() == fpow(eta, k as nat),
            fss_c.len() == 2 * pk.m,
            all_wf(fss_c@),
            r.len() == i,
            all_wf(r@),
            forall|k: int|
                0 <= k < i ==> #[trigger] r@[k].val() == big_sum_on_coset(
                    pk,
                    round1,
                    round2,
                    eta,
                    fss_c@[k].val(),
                    k,
                ),
        decreases nc - i,
    {
        proof {
            assert(coset_values_of(round1.polynomials[0], round1.coset_evals[0]@, pk.m as nat));
            assert(coset_values_of(round1.polynomials[1], round1.coset_evals[1]@, pk.m as nat));
            assert(coset_values_of(round1.polynomials[2], round1.coset_evals[2]@, pk.m as nat));
            assert(coset_values_of(round1.polynomials[4], round1.coset_evals[4]@, pk.m as nat));
            assert(coset_values_of(round1.polynomials[5], round1.coset_evals[5]@, pk.m as nat));
            assert(coset_values_of(round1.polynomials[6], round1.coset_evals[6]@, pk.m as nat));
            assert(coset_values_of(round1.polynomials[7], round1.coset_evals[7]@, pk.m as nat));
            assert(coset_values_of(round2.polynomials[0], round2.f_coset_evals[0]@, pk.m as nat));
            assert(coset_values_of(round2.polynomials[1], round2.f_coset_evals[1]@, pk.m as nat));
            assert(coset_values_of(round2.polynomials[2], round2.f_coset_evals[2]@, pk.m as nat));
            assert(coset_values_of(round2.polynomials[3], round2.f_coset_evals[3]@, pk.m as nat));
            assert(coset_values_of(round2.polynomials[4], round2.f_coset_evals[4]@, pk.m as nat));
        }
        let f = [
            round2.f_coset_evals[0][i],
            round2.f_coset_evals[1][i],
            round2.f_coset_evals[2][i],
            round2.f_coset_evals[3][i],
            round2.f_coset_evals[4][i],
        ];
        let v = batched_at(
            beta,
            big_delta,
            big_delta_t,
            eta_pows,
            round1.coset_evals[0][i],
            round1.coset_evals[1][i],
            round1.coset_evals[2][i],
            round1.coset_evals[4][i],
            round1.coset_evals[5][i],
            round1.coset_evals[6][i],
            round1.coset_evals[7][i],
            &f,
            pk.h_coset_evals[i],
            pk.zkh_coset_evals[i],
            fss_c[i],
            Ghost(eta),
        );
        r.push(v);
        proof {
            assert(seq![f[0].val(), f[1].val(), f[2].val(), f[3].val(), f[4].val()] =~= seq![
                round2.f_coset_evals[0]@[i as int].val(),
                round2.f_coset_evals[1]@[i as int].val(),
                round2.f_coset_evals[2]@[i as int].val(),
                round2.f_coset_evals[3]@[i as int].val(),
                round2.f_coset_evals[4]@[i as int].val(),
            ]);
        }
        i = i + 1;
    }
    r
}

/// The polynomial U(X) = X³ − 1.
fn u_polynomial() -> (r: Poly)
    ensures
        r.wf(),
        r.len() == 4,
        r.cv() == u_coeffs(),
{
    let mut c: Vec<Scalar> = Vec::new();
    c.push(Scalar::one().neg());
    c.push(Scalar::zero());
    c.push(Scalar::zero());
    c.push(Scalar::one());
    let r = Poly::from_coefficients_vec(c);
    assert(fneg(1) == crate::field::modulus() - 1) by {
        reveal(fneg);
    }
    assert(r.cv() =~= u_coeffs());
    r
}

/// **Round 3**: given the verifier challenge η, compute R*(X) and q(X)
/// (eq. 10).
///
/// U(X) = X³ − 1.  With (q_F, R_F) the quotient and remainder of
/// ΣFⱼ + η·S by z_K, R*(X) = (R_F(X)/X)·U(X), and
///
/// P(X) = [batched identity, see [`batched_terms`]] · U(X) − η⁹·X·R*(X),
/// q(X) = P(X) / (z_K(X)·U(X)),
///
/// computed as (P/U − η⁹·R_F)/z_K pointwise on the coset of size 2m and
/// interpolated back.  A zero value of z_K on the coset would count as
/// having inverse 0.
pub fn round_three(
    pk: &PfrPublicKey,
    round1_state: &Round1State,
    round2_state: &Round2State,
    eta: Scalar,
    counter: &mut Option<OpCounts>,
) -> (s: Round3State)
    requires
        pk.wf(),
        round1_state.consistent(pk),
        round2_state.consistent(pk),
        eta.wf(),
    ensures
        s.eta == eta,
        s.eta9.wf(),
        s.eta9.val() == fpow(eta.val(), 9),
        s.u_poly.wf(),
        s.u_poly.cv() == u_coeffs(),
        s.polynomials.len() == 2,
        s.polynomials[0].wf(),
        s.polynomials[1].wf(),
        s.polynomials[0].len() <= pk.m + 2,
        s.polynomials[1].len() <= 2 * pk.m,
        s.rands.len() == 0,
        exists|fsc: Seq<int>, qf: Seq<int>, rf: Seq<int>|
            #[trigger] round_three_from(pk, round1_state, round2_state, eta.val(), &s, fsc, qf, rf),
        counter_view(*final(counter)) == counter_after_all(
            counter_view(*old(counter)),
            round_three_ops(pk.m),
        ),
{
    let ghost c0 = counter_view(*counter);
    let z_k = pk.k_domain.vanishing_polynomial();
    // U(X) = X³ − 1
    let u_poly = u_polynomial();

    // R*(X) = (R_F(X) + η·R_S) · U(X): R_F from ΣFⱼ + η·S modulo z_K.
    let s_poly = &round1_state.polynomials[3];
    let f1_poly = &round2_state.polynomials[0];
    let f2_poly = &round2_state.polynomials[1];
    let f3_poly = &round2_state.polynomials[2];
    let f4_poly = &round2_state.polynomials[3];
    let f5_poly = &round2_state.polynomials[4];
    let f_sum_poly = f1_poly.add(f2_poly).add(&f3_poly.add(f4_poly)).add(f5_poly);
    let fs_sum_poly = f_sum_poly.add(&s_poly.scale(&eta));
    let (q_f, r_f) = fs_sum_poly.divide_by_vanishing_poly(&pk.k_domain);
    let r_f_over_x = if r_f.coeffs.len() == 0 {
        Poly::zero()
    } else {
        Poly::from_coefficients_vec(sub_vec(&r_f.coeffs, 1, r_f.coeffs.len() - 1))
    };
    let r_star = r_f_over_x.mul(&u_poly);

    // q(X) from the coset evaluations.
    let nc = pk.coset_domain.size();
    // Evaluate z_K and fs_sum over the coset. 2 × coset_FFT(2m)
    record_fft(counter, nc);
    record_fft(counter, nc);
    let zk_c = pk.coset_domain.coset_fft(&z_k);
    let fss_c = pk.coset_domain.coset_fft(&fs_sum_poly);
    let eta_pows = eta_powers(eta);
    let big_sum = big_sum_values(pk, round1_state, round2_state, &eta_pows, &fss_c, Ghost(eta.val()));
    let eta9 = eta_pows[9];

    // Evaluate r_f over the coset. 1 × coset_FFT(2m)
    record_fft(counter, nc);
    let rf_c = pk.coset_domain.coset_fft(&r_f);

    // (big_sum − η⁹·r_f) / z_K pointwise; 2m individual field inversions.
    record_repeated(counter, Op::FieldInv, nc);
    let mut q_evals: Vec<Scalar> = Vec::new();
    let mut i: usize = 0;
    while i < nc
        invariant
            i <= nc,
            nc == 2 * pk.m,
            big_sum.len() == nc,
            rf_c.len() == nc,
            zk_c.len() == nc,
            all_wf(big_sum@),
            all_wf(rf_c@),
            all_wf(zk_c@),
            eta9.wf(),
            q_evals.len() == i,
            all_wf(q_evals@),
            forall|k: int|
                0 <= k < i ==> #[trigger] q_evals@[k].val() == fmul(
                    fsub(big_sum@[k].val(), fmul(eta9.val(), rf_c@[k].val())),
                    finv(zk_c@[k].val()),
                ),
            forall|k: int| 0 <= k < i ==> inverse_known(#[trigger] zk_c@[k].val()),
        decreases nc - i,
    {
        let zinv = zk_c[i].inverse_or_zero();
        proof {
            crate::field::lemma_inverse_known(zk_c@[i as int].val(), zinv.val());
        }
        q_evals.push(big_sum[i].sub(&eta9.mul(&rf_c[i])).mul(&zinv));
        i = i + 1;
    }

    // Interpolate q back from the coset. 1 × coset_IFFT(2m)
    record_ifft(counter, nc);
    let q_poly = pk.coset_domain.coset_ifft(&q_evals);

    let mut polynomials: Vec<Poly> = Vec::new();
    polynomials.push(r_star);
    polynomials.push(q_poly);
    let s = Round3State { polynomials, u_poly, eta, eta9, rands: Vec::new() };
    proof {
        let m = pk.m as nat;
        let fsc = fs_sum_poly.cv();
        let rf = r_f.cv();
        assert(vals(r_f_over_x.coeffs@) =~= over_x(rf)) by {
            if r_f.coeffs.len() > 0 {
                assert(r_f.coeffs@.subrange(1, r_f.coeffs.len() as int).map_values(
                    |x: Scalar| x.val(),
                ) =~= rf.drop_first());
            }
        }
        assert(truncated(rf, 2 * m) == rf);
        assert(truncated(z_k.cv(), 2 * m) == z_k.cv());
        assert forall|x: int| #[trigger] poly_eval(fsc, x) == fs_sum_at(
            round1_state,
            round2_state,
            eta.val(),
            x,
        ) by {
            assert(fs_sum_poly.eval(x) == fadd(f_sum_poly.eval(x), fmul(eta.val(), s_poly.eval(x))));
        }
        assert forall|x: int| #[trigger] s.polynomials[0].eval(x) == fmul(
            poly_eval(over_x(rf), x),
            poly_eval(u_coeffs(), x),
        ) by {
            assert(r_star.eval(x) == fmul(r_f_over_x.eval(x), u_poly.eval(x)));
        }
        assert forall|i: int| 0 <= i < 2 * m implies #[trigger] s.polynomials[1].eval(
            coset_point(2 * m, i as nat),
        ) == fmul(
            fsub(
                big_sum_on_coset(
                    pk,
                    round1_state,
                    round2_state,
                    eta.val(),
                    poly_eval(truncated(fsc, 2 * m), coset_point(2 * m, i as nat)),
                    i,
                ),
                fmul(fpow(eta.val(), 9), poly_eval(rf, coset_point(2 * m, i as nat))),
            ),
            finv(fsub(fpow(coset_point(2 * m, i as nat), m), 1)),
        ) by {
            assert(q_poly.eval(coset_point(2 * m, i as nat)) == q_evals@[i].val());
            assert(z_k.eval(coset_point(2 * m, i as nat)) == fsub(fpow(coset_point(2 * m, i as nat), m), 1));
        }
        assert forall|x: int| #[trigger] poly_eval(fsc, x) == fadd(
            fmul(poly_eval(q_f.cv(), x), fsub(fpow(x, m), 1)),
            poly_eval(rf, x),
        ) by {
            assert(fs_sum_poly.eval(x) == fadd(fmul(q_f.eval(x), fsub(fpow(x, m), 1)), r_f.eval(x)));
        }
        assert forall|i: int| 0 <= i < 2 * m implies #[trigger] fmul(
            s.polynomials[1].eval(coset_point(2 * m, i as nat)),
            fsub(fpow(coset_point(2 * m, i as nat), m), 1),
        ) == fsub(
            big_sum_on_coset(
                pk,
                round1_state,
                round2_state,
                eta.val(),
                poly_eval(truncated(fsc, 2 * m), coset_point(2 * m, i as nat)),
                i,
            ),
            fmul(fpow(eta.val(), 9), poly_eval(rf, coset_point(2 * m, i as nat))),
        ) by {
            let x = coset_point(2 * m, i as nat);
            let z = fsub(fpow(x, m), 1);
            assert(z_k.eval(x) == z);
            assert(zk_c@[i].val() == z);
            reveal(PfrPublicKey::coset_avoids_k);
            assert(z != 0);
            assert(inverse_known(zk_c@[i].val()));
            lemma_ops_canonical(fpow(x, m), 1);
            vstd::arithmetic::div_mod::lemma_small_mod(z as nat, crate::field::modulus() as nat);
            let v = fsub(big_sum@[i].val(), fmul(eta9.val(), rf_c@[i].val()));
            lemma_ops_canonical(big_sum@[i].val(), fmul(eta9.val(), rf_c@[i].val()));
            crate::field::lemma_fmul_assoc(v, finv(z), z);
            crate::field::lemma_fmul_one(v);
            assert(q_poly.eval(x) == q_evals@[i].val());
        }
        assert forall|i: int| 0 <= i < 2 * m implies #[trigger] inverse_known(
            fsub(fpow(coset_point(2 * m, i as nat), m), 1),
        ) by {
            let x = coset_point(2 * m, i as nat);
            assert(z_k.eval(x) == fsub(fpow(x, m), 1));
            assert(zk_c@[i].val() == fsub(fpow(x, m), 1));
        }
        assert(round_three_from(pk, round1_state, round2_state, eta.val(), &s, fsc, q_f.cv(), rf));

        let a = Seq::new(3, |k: int| Op::Fft((2 * pk.m) as usize));
        let b = Seq::new((2 * pk.m) as nat, |k: int| Op::FieldInv);
        let e = Seq::<Op>::empty();
        let ff = Op::Fft((2 * pk.m) as usize);
        assert(a =~= e.push(ff).push(ff).push(ff));
        lemma_after_all_push(c0, e, ff);
        lemma_after_all_push(c0, e.push(ff), ff);
        lemma_after_all_push(c0, e.push(ff).push(ff), ff);
        crate::counting::lemma_after_all_concat(c0, a, b);
        lemma_after_all_push(c0, a + b, Op::Ifft((2 * pk.m) as usize));
        assert(round_three_ops(pk.m) =~= (a + b).push(Op::Ifft((2 * pk.m) as usize)));
    }
    s
}

impl Round3State {
    /// The shape that round 5 relies on.
    pub open spec fn consistent(&self) -> bool {
        &&& self.polynomials.len() == 2
        &&& self.polynomials[0].wf()
        &&& self.polynomials[1].wf()
        &&& self.u_poly.wf()
        &&& self.eta.wf()
        &&& self.eta9.wf()
    }
}

// ---------------------------------------------------------------------------
// Round 4
// ---------------------------------------------------------------------------

/// Prover state after Round 4.
pub struct Round4State {
    /// α: verifier challenge that triggered Round 4.
    pub alpha: Scalar,
    /// h(α)
    pub h_alpha: Scalar,
    /// R(α)
    pub r_alpha: Scalar,
    /// C(α)
    pub c_alpha: Scalar,
    /// row̃(α)
    pub row_alpha: Scalar,
}

impl Round4State {
    /// All five values are canonical field elements.
    pub open spec fn consistent(&self) -> bool {
        &&& self.alpha.wf()
        &&& self.h_alpha.wf()
        &&& self.r_alpha.wf()
        &&& self.c_alpha.wf()
        &&& self.row_alpha.wf()
    }
}

/// **Round 4**: evaluate h, R, C, row̃ at the verifier challenge α.
pub fn round_four(pk: &PfrPublicKey, round1_state: &Round1State, alpha: Scalar) -> (s: Round4State)
    requires
        pk.wf(),
        round1_state.consistent(pk),
        alpha.wf(),
    ensures
        s.consistent(),
        s.alpha == alpha,
        s.h_alpha.val() == pk.h_poly.eval(alpha.val()),
        s.r_alpha.val() == round1_state.polynomials[0].eval(alpha.val()),
        s.c_alpha.val() == round1_state.polynomials[1].eval(alpha.val()),
        s.row_alpha.val() == round1_state.polynomials[7].eval(alpha.val()),
{
    Round4State {
        alpha,
        h_alpha: pk.h_poly.evaluate(&alpha),
        r_alpha: round1_state.polynomials[0].evaluate(&alpha),
        c_alpha: round1_state.polynomials[1].evaluate(&alpha),
        row_alpha: round1_state.polynomials[7].evaluate(&alpha),
    }
}

// ---------------------------------------------------------------------------
// Round 5
// ---------------------------------------------------------------------------

/// big_lin(x): the batched identity with the Round-4 scalars substituted
/// for R, C, h, row̃ and z_{K∖H} taken at α, keeping the other polynomials:
///
///   F₁(x)(β + R_α) − 1
/// + η  (F₂(x)(β + C_α) − 1)
/// + η² (F₃(x)(β·Δ·R_α + C_α) − Δ·R_α)
/// + η³ (F₄(x)(β·Δᵗ + C_α) − Δᵗ)
/// + η⁴ (F₅(x)(β + h_α) + z_{K∖H}(α)·m(x))
/// + η⁵ (R_α² − row(x))
/// + η⁶ (C_α² − col(x))
/// + η⁷ (rowcol(x) − row̃_α·col(x))
/// + η⁸ (row̃(x) − row(x))
/// + η⁹ (ΣFⱼ(x) + η·S(x))
#[verifier::opaque]
pub open spec fn big_lin_at(
    pk: &PfrPublicKey,
    r1: &Round1State,
    r2: &Round2State,
    r3: &Round3State,
    r4: &Round4State,
    x: int,
) -> int {
    let beta = r2.beta.val();
    let eta = r3.eta.val();
    let delta = pk.d_domain.point(1);
    let delta_t = fpow(delta, pk.t as nat);
    let ra = r4.r_alpha.val();
    let ca = r4.c_alpha.val();
    let ha = r4.h_alpha.val();
    let rowa = r4.row_alpha.val();
    let zkh_a = poly_eval(crate::types::zkh_coeffs(pk.n as int, pk.m as int), r4.alpha.val());
    let f1 = r2.polynomials[0].eval(x);
    let f2 = r2.polynomials[1].eval(x);
    let f3 = r2.polynomials[2].eval(x);
    let f4 = r2.polynomials[3].eval(x);
    let f5 = r2.polynomials[4].eval(x);
    let t0 = fsub(fmul(fadd(beta, ra), f1), 1);
    let t1 = fadd(t0, fmul(fpow(eta, 1), fsub(fmul(fadd(beta, ca), f2), 1)));
    let t2 = fadd(
        t1,
        fmul(fpow(eta, 2), fsub(fmul(fadd(fmul(fmul(beta, delta), ra), ca), f3), fmul(delta, ra))),
    );
    let t3 = fadd(
        t2,
        fmul(fpow(eta, 3), fsub(fmul(fadd(fmul(beta, delta_t), ca), f4), delta_t)),
    );
    let t4 = fadd(
        t3,
        fmul(
            fpow(eta, 4),
            fadd(fmul(fadd(beta, ha), f5), fmul(zkh_a, r1.polynomials[2].eval(x))),
        ),
    );
    let t5 = fadd(t4, fmul(fpow(eta, 5), fsub(fmul(ra, ra), r1.polynomials[4].eval(x))));
    let t6 = fadd(t5, fmul(fpow(eta, 6), fsub(fmul(ca, ca), r1.polynomials[5].eval(x))));
    let t7 = fadd(
        t6,
        fmul(
            fpow(eta, 7),
            fsub(r1.polynomials[6].eval(x), fmul(rowa, r1.polynomials[5].eval(x))),
        ),
    );
    let t8 = fadd(
        t7,
        fmul(fpow(eta, 8), fsub(r1.polynomials[7].eval(x), r1.polynomials[4].eval(x))),
    );
    let fs = fadd(
        fadd(fadd(fadd(f1, f2), fadd(f3, f4)), f5),
        fmul(eta, r1.polynomials[3].eval(x)),
    );
    fadd(t8, fmul(r3.eta9.val(), fs))
}

/// Lin(x) = big_lin(x)·U(α) − η⁹·α·R*(x) − q(x)·U(α)·z_K(α).
#[verifier::opaque]
pub open spec fn lin_at(
    pk: &PfrPublicKey,
    r1: &Round1State,
    r2: &Round2State,
    r3: &Round3State,
    r4: &Round4State,
    x: int,
) -> int {
    let alpha = r4.alpha.val();
    let u_a = r3.u_poly.eval(alpha);
    let zk_a = fsub(fpow(alpha, pk.m as nat), 1);
    fsub(
        fsub(
            fmul(u_a, big_lin_at(pk, r1, r2, r3, r4, x)),
            fmul(fmul(r3.eta9.val(), alpha), r3.polynomials[0].eval(x)),
        ),
        fmul(fmul(u_a, zk_a), r3.polynomials[1].eval(x)),
    )
}

/// The numerator of the batched opening at x:
/// (h(x)−h_α) + δ(R(x)−R_α) + δ²(C(x)−C_α) + δ³(row̃(x)−row̃_α) + δ⁴·Lin(x).
#[verifier::opaque]
pub open spec fn opening_numerator_at(
    pk: &PfrPublicKey,
    r1: &Round1State,
    r2: &Round2State,
    r3: &Round3State,
    r4: &Round4State,
    delta: int,
    x: int,
) -> int {
    let n0 = fsub(pk.h_poly.eval(x), r4.h_alpha.val());
    let n1 = fadd(n0, fmul(fpow(delta, 1), fsub(r1.polynomials[0].eval(x), r4.r_alpha.val())));
    let n2 = fadd(n1, fmul(fpow(delta, 2), fsub(r1.polynomials[1].eval(x), r4.c_alpha.val())));
    let n3 = fadd(n2, fmul(fpow(delta, 3), fsub(r1.polynomials[7].eval(x), r4.row_alpha.val())));
    fadd(n3, fmul(fpow(delta, 4), lin_at(pk, r1, r2, r3, r4, x)))
}

/// The largest element of `s` (0 for the empty sequence).
pub open spec fn max_len(s: Seq<nat>) -> nat
    decreases s.len(),
{
    if s.len() == 0 {
        0
    } else {
        let rest = max_len(s.drop_last());
        if s.last() > rest {
            s.last()
        } else {
            rest
        }
    }
}

proof fn lemma_max_len(s: Seq<nat>, i: int)
    requires
        0 <= i < s.len(),
    ensures
        s[i] <= max_len(s),
    decreases s.len(),
{
    if i < s.len() - 1 {
        lemma_max_len(s.drop_last(), i);
    }
}

/// The lengths of the polynomials that the batched opening combines.
pub open spec fn opening_input_lens(
    pk: &PfrPublicKey,
    r1: &Round1State,
    r2: &Round2State,
    r3: &Round3State,
) -> Seq<nat> {
    seq![
        1,
        pk.h_poly.len(),
        r1.polynomials[0].len(),
        r1.polynomials[1].len(),
        r1.polynomials[2].len(),
        r1.polynomials[3].len(),
        r1.polynomials[4].len(),
        r1.polynomials[5].len(),
        r1.polynomials[6].len(),
        r1.polynomials[7].len(),
        r2.polynomials[0].len(),
        r2.polynomials[1].len(),
        r2.polynomials[2].len(),
        r2.polynomials[3].len(),
        r2.polynomials[4].len(),
        r3.polynomials[0].len(),
        r3.polynomials[1].len(),
    ]
}

/// Every polynomial that the batched opening combines has at most `b`
/// coefficients, and `b ≥ 1`.
pub open spec fn opening_lens_within(
    pk: &PfrPublicKey,
    r1: &Round1State,
    r2: &Round2State,
    r3: &Round3State,
    b: nat,
) -> bool {
    &&& b >= 1
    &&& pk.h_poly.len() <= b
    &&& forall|j: int| 0 <= j < 8 ==> (#[trigger] r1.polynomials[j]).len() <= b
    &&& forall|j: int| 0 <= j < 5 ==> (#[trigger] r2.polynomials[j]).len() <= b
    &&& r3.polynomials[0].len() <= b
    &&& r3.polynomials[1].len() <= b
}

proof fn lemma_opening_lens(pk: &PfrPublicKey, r1: &Round1State, r2: &Round2State, r3: &Round3State)
    requires
        r3.polynomials.len() == 2,
    ensures
        opening_lens_within(pk, r1, r2, r3, max_len(opening_input_lens(pk, r1, r2, r3))),
{
    let s = opening_input_lens(pk, r1, r2, r3);
    let b = max_len(s);
    lemma_max_len(s, 0);
    lemma_max_len(s, 1);
    assert forall|j: int| 0 <= j < 8 implies (#[trigger] r1.polynomials[j]).len() <= b by {
        lemma_max_len(s, j + 2);
    }
    assert forall|j: int| 0 <= j < 5 implies (#[trigger] r2.polynomials[j]).len() <= b by {
        lemma_max_len(s, j + 10);
    }
    lemma_max_len(s, 15);
    lemma_max_len(s, 16);
}

/// `s·p`.
fn scaled(s: &Scalar, p: &Poly) -> (r: Poly)
    requires
        s.wf(),
        p.wf(),
    ensures
        r.wf(),
        r.len() <= p.len(),
        forall|x: int| #[trigger] r.eval(x) == fmul(s.val(), p.eval(x)),
{
    p.scale(s)
}

/// big_lin as a polynomial (see [`big_lin_at`]).
fn big_lin_poly(
    pk: &PfrPublicKey,
    round1_state: &Round1State,
    round2_state: &Round2State,
    round3_state: &Round3State,
    round4_state: &Round4State,
    Ghost(b): Ghost<nat>,
) -> (r: Poly)
    requires
        pk.wf(),
        round1_state.consistent(pk),
        round2_state.consistent(pk),
        round3_state.consistent(),
        round4_state.consistent(),
        opening_lens_within(pk, round1_state, round2_state, round3_state, b),
    ensures
        r.wf(),
        r.len() <= b,
        forall|x: int|
            #[trigger] r.eval(x) == big_lin_at(
                pk,
                round1_state,
                round2_state,
                round3_state,
                round4_state,
                x,
            ),
{
    proof {
        reveal(big_lin_at);
        assert(round1_state.polynomials[2].len() <= b);
        assert(round1_state.polynomials[3].len() <= b);
        assert(round1_state.polynomials[4].len() <= b);
        assert(round1_state.polynomials[5].len() <= b);
        assert(round1_state.polynomials[6].len() <= b);
        assert(round1_state.polynomials[7].len() <= b);
        assert(round2_state.polynomials[0].len() <= b);
        assert(round2_state.polynomials[1].len() <= b);
        assert(round2_state.polynomials[2].len() <= b);
        assert(round2_state.polynomials[3].len() <= b);
        assert(round2_state.polynomials[4].len() <= b);
    }
    let beta = round2_state.beta;
    let eta = round3_state.eta;
    let eta9 = round3_state.eta9;
    let alpha = round4_state.alpha;
    let h_alpha = round4_state.h_alpha;
    let r_alpha = round4_state.r_alpha;
    let c_alpha = round4_state.c_alpha;
    let row_alpha = round4_state.row_alpha;
    let big_delta = pk.big_delta();
    let big_delta_t = big_delta.pow(pk.t as u64);

    let m_poly = &round1_state.polynomials[2];
    let row_poly = &round1_state.polynomials[4];
    let col_poly = &round1_state.polynomials[5];
    let rowcol_poly = &round1_state.polynomials[6];
    let rowtilde_poly = &round1_state.polynomials[7];
    let s_poly = &round1_state.polynomials[3];
    let f1_poly = &round2_state.polynomials[0];
    let f2_poly = &round2_state.polynomials[1];
    let f3_poly = &round2_state.polynomials[2];
    let f4_poly = &round2_state.polynomials[3];
    let f5_poly = &round2_state.polynomials[4];

    // z_{K\H}(X) = (n/m)·(X^m−1)/(X^n−1) as a polynomial.
    let zkh = crate::types::zkh_polynomial(pk.n, pk.m);
    let one = Scalar::one();
    let eta_pows = eta_powers(eta);

    // f_sum_poly = F₁ + … + F₅
    let f_sum_poly = f1_poly.add(f2_poly).add(&f3_poly.add(f4_poly)).add(f5_poly);

    // η⁰: F₁(X)(β + R_α) − 1
    let mut big_lin = scaled(&beta.add(&r_alpha), f1_poly).sub(&Poly::constant(one));
    // η¹: F₂(X)(β + C_α) − 1
    big_lin = big_lin.add(&scaled(&eta_pows[1], &scaled(&beta.add(&c_alpha), f2_poly).sub(&Poly::constant(one))));
    // η²: F₃(X)(β·Δ·R_α + C_α) − Δ·R_α
    big_lin = big_lin.add(&scaled(
        &eta_pows[2],
        &scaled(&beta.mul(&big_delta).mul(&r_alpha).add(&c_alpha), f3_poly).sub(
            &Poly::constant(big_delta.mul(&r_alpha)),
        ),
    ));
    // η³: F₄(X)(β·Δᵗ + C_α) − Δᵗ
    big_lin = big_lin.add(&scaled(
        &eta_pows[3],
        &scaled(&beta.mul(&big_delta_t).add(&c_alpha), f4_poly).sub(&Poly::constant(big_delta_t)),
    ));
    // η⁴: F₅(X)(β + h_α) + m(X)·z_{K\H}(α)
    let zkh_at_alpha = zkh.evaluate(&alpha);
    big_lin = big_lin.add(&scaled(
        &eta_pows[4],
        &scaled(&beta.add(&h_alpha), f5_poly).add(&scaled(&zkh_at_alpha, m_poly)),
    ));
    // η⁵: R_α² − row(X)
    big_lin = big_lin.add(&scaled(&eta_pows[5], &Poly::constant(r_alpha.mul(&r_alpha)).sub(row_poly)));
    // η⁶: C_α² − col(X)
    big_lin = big_lin.add(&scaled(&eta_pows[6], &Poly::constant(c_alpha.mul(&c_alpha)).sub(col_poly)));
    // η⁷: rowcol(X) − row̃_α · col(X)
    big_lin = big_lin.add(&scaled(&eta_pows[7], &rowcol_poly.sub(&scaled(&row_alpha, col_poly))));
    // η⁸: row̃(X) − row(X)
    big_lin = big_lin.add(&scaled(&eta_pows[8], &rowtilde_poly.sub(row_poly)));
    // η⁹: ∑Fⱼ(X) + η·S(X)
    let fs_sum_poly = f_sum_poly.add(&scaled(&eta, s_poly));
    big_lin = big_lin.add(&scaled(&eta9, &fs_sum_poly));
    big_lin
}

/// A polynomial with at most one coefficient takes the same value
/// everywhere.
proof fn lemma_constant_poly(c: Seq<int>, x: int, y: int)
    requires
        c.len() <= 1,
    ensures
        poly_eval(c, x) == poly_eval(c, y),
{
    if c.len() == 1 {
        assert(c.drop_first().len() == 0);
        assert(poly_eval(c.drop_first(), x) == 0);
        assert(poly_eval(c.drop_first(), y) == 0);
        assert(x * 0 == 0);
        assert(y * 0 == 0);
    }
}

/// Lin(X) as a polynomial (see [`lin_at`]).
fn lin_polynomial(
    pk: &PfrPublicKey,
    round1_state: &Round1State,
    round2_state: &Round2State,
    round3_state: &Round3State,
    round4_state: &Round4State,
    Ghost(b): Ghost<nat>,
) -> (r: Poly)
    requires
        pk.wf(),
        round1_state.consistent(pk),
        round2_state.consistent(pk),
        round3_state.consistent(),
        round4_state.consistent(),
        opening_lens_within(pk, round1_state, round2_state, round3_state, b),
    ensures
        r.wf(),
        r.len() <= b,
        forall|x: int|
            #[trigger] r.eval(x) == lin_at(pk, round1_state, round2_state, round3_state, round4_state, x),
{
    assert(round3_state.polynomials[0].len() <= b);
    assert(round3_state.polynomials[1].len() <= b);
    let alpha = round4_state.alpha;
    let eta9 = round3_state.eta9;
    let r_star = &round3_state.polynomials[0];
    let q_poly = &round3_state.polynomials[1];
    let u_at_alpha = round3_state.u_poly.evaluate(&alpha);
    let zk_at_alpha = pk.k_domain.vanishing_polynomial().evaluate(&alpha);
    let big_lin = big_lin_poly(pk, round1_state, round2_state, round3_state, round4_state, Ghost(b));
    // Lin(X) = big_lin · U(α) − η⁹ · α · R*(X) − q(X) · U(α) · z_K(α)
    let a = scaled(&u_at_alpha, &big_lin);
    let b_term = scaled(&eta9.mul(&alpha), r_star);
    let c = scaled(&u_at_alpha.mul(&zk_at_alpha), q_poly);
    let r = a.sub(&b_term).sub(&c);
    assert forall|x: int| #[trigger] r.eval(x) == lin_at(pk, round1_state, round2_state, round3_state, round4_state, x) by {
        reveal(lin_at);
        assert(a.eval(x) == fmul(u_at_alpha.val(), big_lin.eval(x)));
    }
    r
}

/// The numerator of the batched opening as a polynomial (see
/// [`opening_numerator_at`]).
fn opening_numerator_poly(
    pk: &PfrPublicKey,
    round1_state: &Round1State,
    round2_state: &Round2State,
    round3_state: &Round3State,
    round4_state: &Round4State,
    delta: Scalar,
    Ghost(b): Ghost<nat>,
) -> (r: Poly)
    requires
        pk.wf(),
        round1_state.consistent(pk),
        round2_state.consistent(pk),
        round3_state.consistent(),
        round4_state.consistent(),
        delta.wf(),
        opening_lens_within(pk, round1_state, round2_state, round3_state, b),
    ensures
        r.wf(),
        r.len() <= b,
        forall|x: int|
            #[trigger] r.eval(x) == opening_numerator_at(
                pk,
                round1_state,
                round2_state,
                round3_state,
                round4_state,
                delta.val(),
                x,
            ),
{
    proof {
        reveal(opening_numerator_at);
        assert(round1_state.polynomials[0].len() <= b);
        assert(round1_state.polynomials[1].len() <= b);
        assert(round1_state.polynomials[7].len() <= b);
    }
    let r_poly = &round1_state.polynomials[0];
    let c_poly = &round1_state.polynomials[1];
    let rowtilde_poly = &round1_state.polynomials[7];
    let lin_poly = lin_polynomial(pk, round1_state, round2_state, round3_state, round4_state, Ghost(b));
    let delta_pows = eta_powers(delta);
    let n0 = pk.h_poly.sub(&Poly::constant(round4_state.h_alpha));
    let n1 = n0.add(&scaled(&delta_pows[1], &r_poly.sub(&Poly::constant(round4_state.r_alpha))));
    let n2 = n1.add(&scaled(&delta_pows[2], &c_poly.sub(&Poly::constant(round4_state.c_alpha))));
    let n3 = n2.add(
        &scaled(&delta_pows[3], &rowtilde_poly.sub(&Poly::constant(round4_state.row_alpha))),
    );
    let n4 = n3.add(&scaled(&delta_pows[4], &lin_poly));
    n4
}

/// **Round 5**: compute Lin(X) and the batched opening proof Q(X).
///
/// Lin(X) is obtained from P(X) by substituting the Round-4 scalars
/// (h_α, R_α, C_α, row̃_α) in place of h(X), R(X), C(X), row̃(X), while
/// keeping the Fⱼ(X) and q(X) as polynomials:
///
///   Lin(X) = big_lin(X) · U(α) − η⁹ · α · R*(X) − q(X) · U(α) · z_K(α)
///
/// Q(X) = [ (h(X)−h_α) + δ(R(X)−R_α) + δ²(C(X)−C_α)
///          + δ³(row̃(X)−row̃_α) + δ⁴·Lin(X) ] / (X − α)
///
/// The division discards the remainder, which is the numerator's value at α;
/// for honestly run rounds it is 0
/// ([`crate::identities::law_round_five_divides_exactly`]).
pub fn round_five(
    pk: &PfrPublicKey,
    round1_state: &Round1State,
    round2_state: &Round2State,
    round3_state: &Round3State,
    round4_state: &Round4State,
    delta: Scalar,
) -> (q: Poly)
    requires
        pk.wf(),
        round1_state.consistent(pk),
        round2_state.consistent(pk),
        round3_state.consistent(),
        round4_state.consistent(),
        delta.wf(),
    ensures
        q.wf(),
        q.len() <= max_len(opening_input_lens(pk, round1_state, round2_state, round3_state)),
        forall|x: int|
            #[trigger] opening_numerator_at(
                pk,
                round1_state,
                round2_state,
                round3_state,
                round4_state,
                delta.val(),
                x,
            ) == fadd(
                fmul(q.eval(x), fsub(x, round4_state.alpha.val())),
                opening_numerator_at(
                    pk,
                    round1_state,
                    round2_state,
                    round3_state,
                    round4_state,
                    delta.val(),
                    round4_state.alpha.val(),
                ),
            ),
{
    let alpha = round4_state.alpha;
    let ghost b = max_len(opening_input_lens(pk, round1_state, round2_state, round3_state));
    proof {
        lemma_opening_lens(pk, round1_state, round2_state, round3_state);
    }
    let numerator = opening_numerator_poly(
        pk,
        round1_state,
        round2_state,
        round3_state,
        round4_state,
        delta,
        Ghost(b),
    );
    let (q_open_poly, rem) = numerator.divide_by_linear(&alpha);
    proof {
        let a = alpha.val();
        assert forall|x: int| #[trigger] opening_numerator_at(
            pk,
            round1_state,
            round2_state,
            round3_state,
            round4_state,
            delta.val(),
            x,
        ) == fadd(
            fmul(q_open_poly.eval(x), fsub(x, a)),
            opening_numerator_at(pk, round1_state, round2_state, round3_state, round4_state, delta.val(), a),
        ) by {
            assert(numerator.eval(x) == fadd(fmul(q_open_poly.eval(x), fsub(x, a)), rem.eval(x)));
            assert(numerator.eval(a) == fadd(fmul(q_open_poly.eval(a), fsub(a, a)), rem.eval(a)));
            lemma_constant_poly(rem.cv(), x, a);
            reveal(fsub);
            reveal(fmul);
            reveal(fadd);
            assert(fsub(a, a) == 0);
            assert(fmul(q_open_poly.eval(a), 0) == 0);
            assert(0 <= rem.eval(a) < crate::field::modulus()) by {
                vstd::arithmetic::div_mod::lemma_mod_bound(0, crate::field::modulus());
                if rem.cv().len() == 1 {
                    vstd::arithmetic::div_mod::lemma_mod_bound(
                        rem.cv()[0] + a * poly_eval(rem.cv().drop_first(), a),
                        crate::field::modulus(),
                    );
                }
            }
            vstd::arithmetic::div_mod::lemma_small_mod(rem.eval(a) as nat, crate::field::modulus() as nat);
        }
    }
    q_open_poly
}

// ---------------------------------------------------------------------------
// Prover
// ---------------------------------------------------------------------------

/// If every element of `s` is at most `b`, so is the largest.
proof fn lemma_max_len_bound(s: Seq<nat>, b: nat)
    requires
        forall|i: int| 0 <= i < s.len() ==> s[i] <= b,
    ensures
        max_len(s) <= b,
    decreases s.len(),
{
    if s.len() > 0 {
        lemma_max_len_bound(s.drop_last(), b);
    }
}

/// Appends the bytes of `b` to `msg`.
pub(crate) fn append_bytes(msg: &mut Vec<u8>, b: &Vec<u8>)
    ensures
        final(msg)@ == old(msg)@ + b@,
{
    msg.extend_from_slice(b.as_slice());
    assert(msg@ =~= old(msg)@ + b@);
}

/// `p` has at most `m + 2` coefficients and takes the values `target` on K.
pub open spec fn encodes_on_k(p: Poly, pk: &PfrPublicKey, target: Seq<int>) -> bool {
    &&& p.len() <= pk.m + 2
    &&& forall|i: int| 0 <= i < pk.m ==> #[trigger] p.eval(pk.k_domain.point(i)) == target[i]
}

/// The commitment is that of a polynomial with at most m + 2 coefficients
/// that takes the values `target` on K.
pub open spec fn commits_values_on_k(pk: &PfrPublicKey, comm: Commitment, target: Seq<int>) -> bool {
    exists|p: Poly|
        #[trigger] encodes_on_k(p, pk, target) && comm.bytes@ == kzg_commitment(
            pk.ck.g1_powers(),
            p.cv(),
        )
}

/// The values of F₁, …, F₄ on K for the index pairs and the challenge β:
/// 1/(β + Δ^{r_i}), 1/(β + Δ^{c_i}), 1/(β + Δ^{c_i}/(Δ·Δ^{r_i})),
/// 1/(β + Δ^{c_i}/Δᵗ).
pub open spec fn f_values_on_k(
    pk: &PfrPublicKey,
    rows: Seq<usize>,
    cols: Seq<usize>,
    beta: int,
    j: int,
) -> Seq<int> {
    let delta = pk.d_domain.point(1);
    let delta_t = fpow(delta, pk.t as nat);
    Seq::new(
        pk.m as nat,
        |i: int|
            {
                let r = pk.d_domain.point(rows[i] as int);
                let c = pk.d_domain.point(cols[i] as int);
                if j == 0 {
                    f1_value(beta, r)
                } else if j == 1 {
                    f2_value(beta, c)
                } else if j == 2 {
                    f3_value(beta, delta, r, c)
                } else {
                    f4_value(beta, delta_t, c)
                }
            },
    )
}

/// `p(X) = a·X + b·(X^m − 1)`.
pub open spec fn s_form(pk: &PfrPublicKey, p: Poly, a: int, b: int) -> bool {
    forall|x: int|
        #[trigger] p.eval(x) == fadd(fmul(a, x), fmul(b, fsub(fpow(x, pk.m as nat), 1)))
}

/// The shape of S: `S(X) = a·X + b·(X^m − 1)` for some `a`, `b`, which sums
/// to 0 over K.
pub open spec fn s_shaped(pk: &PfrPublicKey, p: Poly) -> bool {
    exists|a: int, b: int| #[trigger] s_form(pk, p, a, b)
}

/// The rounds behind a proof: the states of rounds 1–4 and round 5's
/// opening polynomial Q, with the challenges of the proof's transcript, such
/// that rounds 1–3 are what `round_one`, `round_two` and `round_three` build
/// from the index pairs and the statement, each commitment of the proof is
/// that of the corresponding polynomial under the key, round 4's values are
/// the proof's, and Q satisfies round 5's division at the transcript's δ.
#[verifier::opaque]
pub open spec fn prove_trace(
    pk: &PfrPublicKey,
    rows: Seq<usize>,
    cols: Seq<usize>,
    stmt: &PfrStatement,
    proof: &PfrProof,
    r1: Round1State,
    r2: Round2State,
    r3: Round3State,
    r4: Round4State,
    qp: Poly,
) -> bool {
    let pw = pk.ck.g1_powers();
    let alpha = challenge_alpha(pk, proof);
    let delta = challenge_delta(pk, proof);
    &&& round_one_spec(pk, rows, cols, stmt, &r1)
    &&& r2.consistent(pk)
    &&& r3.consistent()
    &&& round_two_spec(pk, &r1, r2.beta, &r2)
    &&& r2.beta.val() == challenge_beta(pk, proof)
    &&& r3.eta.val() == challenge_eta(pk, proof)
    &&& exists|fsc: Seq<int>, qf: Seq<int>, rf: Seq<int>|
        #[trigger] round_three_from(pk, &r1, &r2, r3.eta.val(), &r3, fsc, qf, rf)
    &&& r4.alpha.val() == alpha
    &&& r4.h_alpha == proof.h_alpha
    &&& r4.r_alpha == proof.r_alpha
    &&& r4.c_alpha == proof.c_alpha
    &&& r4.row_alpha == proof.row_alpha
    &&& proof.r_comm.bytes@ == kzg_commitment(pw, r1.polynomials[0].cv())
    &&& proof.c_comm.bytes@ == kzg_commitment(pw, r1.polynomials[1].cv())
    &&& proof.m_comm.bytes@ == kzg_commitment(pw, r1.polynomials[2].cv())
    &&& proof.s_comm.bytes@ == kzg_commitment(pw, r1.polynomials[3].cv())
    &&& proof.rowtilde_comm.bytes@ == kzg_commitment(pw, r1.polynomials[7].cv())
    &&& forall|j: int|
        0 <= j < 5 ==> (#[trigger] proof.f_comms@[j]).bytes@ == kzg_commitment(
            pw,
            r2.polynomials[j].cv(),
        )
    &&& proof.r_star_comm.bytes@ == kzg_commitment(pw, r3.polynomials[0].cv())
    &&& proof.q_comm.bytes@ == kzg_commitment(pw, r3.polynomials[1].cv())
    &&& proof.q_poly_comm.bytes@ == kzg_commitment(pw, qp.cv())
    &&& forall|x: int|
        #[trigger] opening_numerator_at(pk, &r1, &r2, &r3, &r4, delta, x) == fadd(
            fmul(qp.eval(x), fsub(x, alpha)),
            opening_numerator_at(pk, &r1, &r2, &r3, &r4, delta, alpha),
        )
}

/// Every commitment of the proof is a point of G1.
pub open spec fn proof_points_in_g1(proof: &PfrProof) -> bool {
    &&& g1_in_group(proof.r_comm.bytes@)
    &&& g1_in_group(proof.c_comm.bytes@)
    &&& g1_in_group(proof.m_comm.bytes@)
    &&& g1_in_group(proof.s_comm.bytes@)
    &&& g1_in_group(proof.rowtilde_comm.bytes@)
    &&& forall|j: int| 0 <= j < proof.f_comms.len() ==> g1_in_group((#[trigger] proof.f_comms@[j]).bytes@)
    &&& g1_in_group(proof.r_star_comm.bytes@)
    &&& g1_in_group(proof.q_comm.bytes@)
    &&& g1_in_group(proof.q_poly_comm.bytes@)
}

/// `p` takes the values `target` on H.
pub open spec fn encodes_on_h(p: Poly, pk: &PfrPublicKey, target: Seq<int>) -> bool {
    &&& p.len() <= pk.n + 1
    &&& forall|j: int| 0 <= j < pk.n ==> #[trigger] p.eval(pk.h_domain.point(j)) == target[j]
}

/// The multiplicities m_j of the index pairs, j < n.
pub open spec fn mult_values(pk: &PfrPublicKey, rows: Seq<usize>, cols: Seq<usize>) -> Seq<int> {
    Seq::new(pk.n as nat, |j: int| mult_count(rows, cols, pk.t as int, pk.m as int, j) as int)
}

/// Δ^{idx[i]} for each index, i < m.
pub open spec fn delta_powers_at(pk: &PfrPublicKey, idx: Seq<usize>) -> Seq<int> {
    Seq::new(pk.m as nat, |i: int| pk.d_domain.point(idx[i] as int))
}

/// row(κ^i) for i < m.
pub open spec fn row_values_on_k(pk: &PfrPublicKey, stmt: &PfrStatement) -> Seq<int> {
    Seq::new(pk.m as nat, |i: int| stmt.row_poly.eval(pk.k_domain.point(i)))
}

/// The operations that [`prove`] records.
pub open spec fn prove_ops(n: usize, m: usize) -> Seq<Op> {
    round_one_ops(n, m) + Seq::new(5, |k: int| Op::MsmG1((m + 2) as usize)) + round_two_ops(m)
        + Seq::new(5, |k: int| Op::MsmG1((m + 2) as usize)) + round_three_ops(m) + seq![
        Op::MsmG1((m + 2) as usize),
        Op::MsmG1((2 * m + 4) as usize),
        Op::MsmG1((2 * m + 3) as usize),
    ]
}

/// Round 1, keeping of its contract what [`prove`] uses.
fn run_round_one(
    pk: &PfrPublicKey,
    row_indices: &[usize],
    col_indices: &[usize],
    stmt: &PfrStatement,
    rng: &mut StdRng,
    counter: &mut Option<OpCounts>,
) -> (s: Round1State)
    requires
        pk.wf(),
        row_indices@.len() == pk.m,
        col_indices@.len() == pk.m,
        valid_pairs(row_indices@, col_indices@, pk.n as int, pk.t as int, pk.m as int),
        stmt.row_poly.wf(),
        stmt.col_poly.wf(),
        stmt.rowcol_poly.wf(),
    ensures
        s.consistent(pk),
        round_one_spec(pk, row_indices@, col_indices@, stmt, &s),
        s.polynomials[4].len() == stmt.row_poly.len(),
        s.polynomials[5].len() == stmt.col_poly.len(),
        s.polynomials[6].len() == stmt.rowcol_poly.len(),
        encodes_on_k(s.polynomials[0], pk, delta_powers_at(pk, row_indices@)),
        encodes_on_k(s.polynomials[1], pk, delta_powers_at(pk, col_indices@)),
        encodes_on_k(s.polynomials[7], pk, row_values_on_k(pk, stmt)),
        encodes_on_h(s.polynomials[2], pk, mult_values(pk, row_indices@, col_indices@)),
        forall|i: int|
            0 <= i < pk.m ==> #[trigger] s.r_evals@[i].val() == pk.d_domain.point(
                row_indices@[i] as int,
            ),
        forall|i: int|
            0 <= i < pk.m ==> #[trigger] s.c_evals@[i].val() == pk.d_domain.point(
                col_indices@[i] as int,
            ),
        s_shaped(pk, s.polynomials[3]),
        counter_view(*final(counter)) == counter_after_all(
            counter_view(*old(counter)),
            round_one_ops(pk.n, pk.m),
        ),
{
    let s = round_one(pk, row_indices, col_indices, stmt, rng, counter);
    proof {
        let a = s.r_s.val();
        let b = s.rho_s.val();
        assert(s_form(pk, s.polynomials[3], a, b));
    }
    s
}

/// Round 2, keeping of its contract what [`prove`] uses.
fn run_round_two(
    pk: &PfrPublicKey,
    round1: &Round1State,
    beta: Scalar,
    rng: &mut StdRng,
    counter: &mut Option<OpCounts>,
) -> (s: Round2State)
    requires
        pk.wf(),
        5 * pk.m <= usize::MAX,
        round1.consistent(pk),
        beta.wf(),
    ensures
        s.consistent(pk),
        s.beta == beta,
        round_two_spec(pk, round1, beta, &s),
        forall|i: int|
            0 <= i < pk.m ==> #[trigger] s.polynomials[0].eval(pk.k_domain.point(i)) == f1_value(
                beta.val(),
                round1.r_evals@[i].val(),
            ),
        forall|i: int|
            0 <= i < pk.m ==> #[trigger] s.polynomials[1].eval(pk.k_domain.point(i)) == f2_value(
                beta.val(),
                round1.c_evals@[i].val(),
            ),
        forall|i: int|
            0 <= i < pk.m ==> #[trigger] s.polynomials[2].eval(pk.k_domain.point(i)) == f3_value(
                beta.val(),
                pk.d_domain.point(1),
                round1.r_evals@[i].val(),
                round1.c_evals@[i].val(),
            ),
        forall|i: int|
            0 <= i < pk.m ==> #[trigger] s.polynomials[3].eval(pk.k_domain.point(i)) == f4_value(
                beta.val(),
                fpow(pk.d_domain.point(1), pk.t as nat),
                round1.c_evals@[i].val(),
            ),
        counter_view(*final(counter)) == counter_after_all(
            counter_view(*old(counter)),
            round_two_ops(pk.m),
        ),
{
    let s = round_two(pk, round1, beta, rng, counter);
    proof {
        assert forall|i: int| 0 <= i < pk.m implies #[trigger] s.polynomials[0].eval(
            pk.k_domain.point(i),
        ) == f1_value(beta.val(), round1.r_evals@[i].val()) by {
            assert(s.polynomials[0].eval(pk.k_domain.point(i)) == s.f_evals[0]@[i].val());
        }
        assert forall|i: int| 0 <= i < pk.m implies #[trigger] s.polynomials[1].eval(
            pk.k_domain.point(i),
        ) == f2_value(beta.val(), round1.c_evals@[i].val()) by {
            assert(s.polynomials[1].eval(pk.k_domain.point(i)) == s.f_evals[1]@[i].val());
        }
        assert forall|i: int| 0 <= i < pk.m implies #[trigger] s.polynomials[2].eval(
            pk.k_domain.point(i),
        ) == f3_value(
            beta.val(),
            pk.d_domain.point(1),
            round1.r_evals@[i].val(),
            round1.c_evals@[i].val(),
        ) by {
            assert(s.polynomials[2].eval(pk.k_domain.point(i)) == s.f_evals[2]@[i].val());
        }
        assert forall|i: int| 0 <= i < pk.m implies #[trigger] s.polynomials[3].eval(
            pk.k_domain.point(i),
        ) == f4_value(
            beta.val(),
            fpow(pk.d_domain.point(1), pk.t as nat),
            round1.c_evals@[i].val(),
        ) by {
            assert(s.polynomials[3].eval(pk.k_domain.point(i)) == s.f_evals[3]@[i].val());
        }
    }
    s
}

/// Round 3, keeping of its contract what [`prove`] uses.
fn run_round_three(
    pk: &PfrPublicKey,
    round1: &Round1State,
    round2: &Round2State,
    eta: Scalar,
    counter: &mut Option<OpCounts>,
) -> (s: Round3State)
    requires
        pk.wf(),
        round1.consistent(pk),
        round2.consistent(pk),
        eta.wf(),
    ensures
        s.consistent(),
        s.eta == eta,
        exists|fsc: Seq<int>, qf: Seq<int>, rf: Seq<int>|
            #[trigger] round_three_from(pk, round1, round2, eta.val(), &s, fsc, qf, rf),
        s.polynomials[0].len() <= pk.m + 2,
        s.polynomials[1].len() <= 2 * pk.m,
        counter_view(*final(counter)) == counter_after_all(
            counter_view(*old(counter)),
            round_three_ops(pk.m),
        ),
{
    round_three(pk, round1, round2, eta, counter)
}

/// Run the 5-round PFR protocol (Appendix B), made non-interactive with a
/// Fiat–Shamir transcript, and return the proof and the public inputs.
///
/// **Round 1** — commit to R(X), C(X), m(X), S(X), row̃(X); challenge β.
/// **Round 2** — commit to F₁, …, F₅; challenge η.
/// **Round 3** — commit to R*(X), q(X); challenge α.
/// **Round 4** — send h(α), R(α), C(α), row̃(α); challenge δ.
/// **Round 5** — commit to the batched opening Q(X).
///
/// The transcript is seeded with the commitment to h; each challenge is
/// drawn after absorbing the concatenated encodings of what the round sent.
#[verifier::rlimit(50)]
pub fn prove(
    pk: &PfrPublicKey,
    row_indices: &[usize],
    col_indices: &[usize],
    stmt: &PfrStatement,
    rng: &mut StdRng,
    counter: &mut Option<OpCounts>,
) -> (out: (PfrProof, PfrPublicInputs))
    requires
        pk.wf(),
        5 * pk.m <= usize::MAX,
        row_indices@.len() == pk.m,
        col_indices@.len() == pk.m,
        valid_pairs(row_indices@, col_indices@, pk.n as int, pk.t as int, pk.m as int),
        stmt.row_poly.wf(),
        stmt.col_poly.wf(),
        stmt.rowcol_poly.wf(),
        stmt.row_poly.len() <= pk.ck.supported() + 1,
        stmt.col_poly.len() <= pk.ck.supported() + 1,
        stmt.rowcol_poly.len() <= pk.ck.supported() + 1,
    ensures
        out.0.f_comms.len() == 5,
        out.1.row_comm.bytes@ == stmt.row_comm.bytes@,
        out.1.col_comm.bytes@ == stmt.col_comm.bytes@,
        out.1.rowcol_comm.bytes@ == stmt.rowcol_comm.bytes@,
        out.0.h_alpha.wf(),
        out.0.r_alpha.wf(),
        out.0.c_alpha.wf(),
        out.0.row_alpha.wf(),
        out.0.h_alpha.val() == pk.h_poly.eval(challenge_alpha(pk, &out.0)),
        exists|rp: Poly|
            #[trigger] encodes_on_k(rp, pk, delta_powers_at(pk, row_indices@))
                && out.0.r_alpha.val() == rp.eval(challenge_alpha(pk, &out.0))
                && out.0.r_comm.bytes@ == kzg_commitment(pk.ck.g1_powers(), rp.cv()),
        exists|cp: Poly|
            #[trigger] encodes_on_k(cp, pk, delta_powers_at(pk, col_indices@))
                && out.0.c_alpha.val() == cp.eval(challenge_alpha(pk, &out.0))
                && out.0.c_comm.bytes@ == kzg_commitment(pk.ck.g1_powers(), cp.cv()),
        exists|tp: Poly|
            #[trigger] encodes_on_k(tp, pk, row_values_on_k(pk, stmt))
                && out.0.row_alpha.val() == tp.eval(challenge_alpha(pk, &out.0))
                && out.0.rowtilde_comm.bytes@ == kzg_commitment(pk.ck.g1_powers(), tp.cv()),
        exists|mp: Poly|
            #[trigger] encodes_on_h(mp, pk, mult_values(pk, row_indices@, col_indices@))
                && out.0.m_comm.bytes@ == kzg_commitment(pk.ck.g1_powers(), mp.cv()),
        exists|sp: Poly|
            #[trigger] s_shaped(pk, sp) && out.0.s_comm.bytes@ == kzg_commitment(
                pk.ck.g1_powers(),
                sp.cv(),
            ),
        forall|j: int|
            0 <= j < 4 ==> #[trigger] commits_values_on_k(
                pk,
                out.0.f_comms@[j],
                f_values_on_k(pk, row_indices@, col_indices@, challenge_beta(pk, &out.0), j),
            ),
        proof_points_in_g1(&out.0),
        exists|r1: Round1State, r2: Round2State, r3: Round3State, r4: Round4State, qp: Poly|
            #[trigger] prove_trace(pk, row_indices@, col_indices@, stmt, &out.0, r1, r2, r3, r4, qp),
        counter_view(*final(counter)) == counter_after_all(
            counter_view(*old(counter)),
            prove_ops(pk.n, pk.m),
        ),
{
    let ghost c0 = counter_view(*counter);
    // Initialise the Fiat-Shamir transcript with the public-key commitment.
    let seed = pk.h_commitment.duplicate();
    let mut fs = Transcript::new(seed.bytes);

    // --- Round 1 ---
    let mut round1_state = run_round_one(pk, row_indices, col_indices, stmt, rng, counter);
    let ghost c1 = counter_view(*counter);
    // 5 × MSM_G1(m+2): commit R, C, m, S, rowtilde
    record_repeated(counter, Op::MsmG1(pk.m + 2), 5);
    let ghost c2 = counter_view(*counter);
    let mut witness_polys: Vec<Poly> = Vec::new();
    witness_polys.push(round1_state.polynomials[0].duplicate());
    witness_polys.push(round1_state.polynomials[1].duplicate());
    witness_polys.push(round1_state.polynomials[2].duplicate());
    witness_polys.push(round1_state.polynomials[3].duplicate());
    witness_polys.push(round1_state.polynomials[7].duplicate());
    let (round1_comms, round1_rands) = kzg_commit(&pk.ck, &witness_polys);
    // Randomness aligned with polynomials[]: [R, C, m, S, row, col, rowcol, rowtilde].
    let mut rands: Vec<Rand> = Vec::new();
    rands.push(rand_clone(&round1_rands[0]));
    rands.push(rand_clone(&round1_rands[1]));
    rands.push(rand_clone(&round1_rands[2]));
    rands.push(rand_clone(&round1_rands[3]));
    rands.push(rand_clone(&stmt.row_rand));
    rands.push(rand_clone(&stmt.col_rand));
    rands.push(rand_clone(&stmt.rowcol_rand));
    rands.push(rand_clone(&round1_rands[4]));
    round1_state.rands = rands;

    let mut round1_comms = round1_comms;
    let r_comm = round1_comms.remove(0);
    let c_comm = round1_comms.remove(0);
    let m_comm = round1_comms.remove(0);
    let s_comm = round1_comms.remove(0);
    let rowtilde_comm = round1_comms.remove(0);

    // Statement commitments come from the pre-committed stmt.
    let row_comm = stmt.row_comm.duplicate();
    let col_comm = stmt.col_comm.duplicate();
    let rowcol_comm = stmt.rowcol_comm.duplicate();

    // Derive β by absorbing Round 1 commitments into the transcript.
    let mut msg1: Vec<u8> = Vec::new();
    append_bytes(&mut msg1, &r_comm.bytes);
    append_bytes(&mut msg1, &c_comm.bytes);
    append_bytes(&mut msg1, &m_comm.bytes);
    append_bytes(&mut msg1, &s_comm.bytes);
    append_bytes(&mut msg1, &rowtilde_comm.bytes);
    let ghost m1 = msg1@;
    fs.absorb(msg1);
    let ghost t1 = fs.msgs();
    let beta = fs.challenge();

    // --- Round 2 ---
    let mut round2_state = run_round_two(pk, &round1_state, beta, rng, counter);
    let ghost c3 = counter_view(*counter);
    // 5 × MSM_G1(m+2): commit F1..F5
    record_repeated(counter, Op::MsmG1(pk.m + 2), 5);
    let ghost c4 = counter_view(*counter);
    let mut f_polys: Vec<Poly> = Vec::new();
    f_polys.push(round2_state.polynomials[0].duplicate());
    f_polys.push(round2_state.polynomials[1].duplicate());
    f_polys.push(round2_state.polynomials[2].duplicate());
    f_polys.push(round2_state.polynomials[3].duplicate());
    f_polys.push(round2_state.polynomials[4].duplicate());
    let (f_comms, round2_rands) = kzg_commit(&pk.ck, &f_polys);
    round2_state.rands = round2_rands;

    // Derive η by absorbing Round 2 commitments.
    let mut msg2: Vec<u8> = Vec::new();
    append_bytes(&mut msg2, &f_comms[0].bytes);
    append_bytes(&mut msg2, &f_comms[1].bytes);
    append_bytes(&mut msg2, &f_comms[2].bytes);
    append_bytes(&mut msg2, &f_comms[3].bytes);
    append_bytes(&mut msg2, &f_comms[4].bytes);
    let ghost m2 = msg2@;
    fs.absorb(msg2);
    let ghost t2 = fs.msgs();
    let eta = fs.challenge();

    // --- Round 3 ---
    let mut round3_state = run_round_three(pk, &round1_state, &round2_state, eta, counter);
    let ghost r3_pre = round3_state;
    let ghost c5 = counter_view(*counter);
    // MSM_G1(m+2) for r_star, MSM_G1(2m+4) for q
    record_msm_g1(counter, pk.m + 2);
    record_msm_g1(counter, 2 * pk.m + 4);
    let (round3_comms, round3_rands) = kzg_commit(&pk.ck, &round3_state.polynomials);
    round3_state.rands = round3_rands;
    let mut round3_comms = round3_comms;
    let r_star_comm = round3_comms.remove(0);
    let q_comm = round3_comms.remove(0);

    // --- Round 4 ---
    // Derive α by absorbing Round 3 commitments.
    let mut msg3: Vec<u8> = Vec::new();
    append_bytes(&mut msg3, &r_star_comm.bytes);
    append_bytes(&mut msg3, &q_comm.bytes);
    let ghost m3 = msg3@;
    fs.absorb(msg3);
    let ghost t3 = fs.msgs();
    let alpha = fs.challenge();
    let round4_state = round_four(pk, &round1_state, alpha);

    // --- Round 5 ---
    // Derive δ by absorbing Round 4 evaluation values.
    let mut msg4: Vec<u8> = Vec::new();
    append_bytes(&mut msg4, &round4_state.h_alpha.to_bytes());
    append_bytes(&mut msg4, &round4_state.r_alpha.to_bytes());
    append_bytes(&mut msg4, &round4_state.c_alpha.to_bytes());
    append_bytes(&mut msg4, &round4_state.row_alpha.to_bytes());
    let ghost m4 = msg4@;
    fs.absorb(msg4);
    let ghost t4 = fs.msgs();
    let delta = fs.challenge();

    proof {
        let b = (pk.ck.supported() + 1) as nat;
        let lens = opening_input_lens(pk, &round1_state, &round2_state, &round3_state);
        assert(pk.n <= 2 * pk.m + 3);
        assert(round2_state.polynomials[0].len() <= pk.m + 2);
        assert(round2_state.polynomials[1].len() <= pk.m + 2);
        assert(round2_state.polynomials[2].len() <= pk.m + 2);
        assert(round2_state.polynomials[3].len() <= pk.m + 2);
        assert(round2_state.polynomials[4].len() <= pk.m + 2);
        assert forall|i: int| 0 <= i < lens.len() implies lens[i] <= b by {}
        lemma_max_len_bound(lens, b);
    }
    let q_open_poly = round_five(pk, &round1_state, &round2_state, &round3_state, &round4_state, delta);

    // MSM_G1(2m+3) for Q
    record_msm_g1(counter, 2 * pk.m + 3);
    let mut q_open_polys: Vec<Poly> = Vec::new();
    q_open_polys.push(q_open_poly);
    let (mut q_open_comms, _) = kzg_commit(&pk.ck, &q_open_polys);
    let q_poly_comm = q_open_comms.remove(0);

    let proof = PfrProof {
        r_comm,
        c_comm,
        m_comm,
        s_comm,
        rowtilde_comm,
        f_comms,
        r_star_comm,
        q_comm,
        h_alpha: round4_state.h_alpha,
        r_alpha: round4_state.r_alpha,
        c_alpha: round4_state.c_alpha,
        row_alpha: round4_state.row_alpha,
        q_poly_comm,
    };
    let public_inputs = PfrPublicInputs { row_comm, col_comm, rowcol_comm };
    proof {
        assert(m1 == round_one_message(&proof));
        assert(m2 == round_two_message(&proof));
        assert(m3 == round_three_message(&proof));
        assert(t3 =~= seq![
            crate::types::transcript_seed(pk),
            round_one_message(&proof),
            round_two_message(&proof),
            round_three_message(&proof),
        ]);
        assert(alpha.val() == challenge_alpha(pk, &proof));
        assert(t1 =~= seq![crate::types::transcript_seed(pk), round_one_message(&proof)]);
        assert(beta.val() == challenge_beta(pk, &proof));
        assert(m2 == round_two_message(&proof));
        assert(m4 == round_four_message(&proof));
        assert(t2 =~= seq![
            crate::types::transcript_seed(pk),
            round_one_message(&proof),
            round_two_message(&proof),
        ]);
        assert(eta.val() == challenge_eta(pk, &proof));
        assert(t4 =~= seq![
            crate::types::transcript_seed(pk),
            round_one_message(&proof),
            round_two_message(&proof),
            round_three_message(&proof),
            round_four_message(&proof),
        ]);
        assert(delta.val() == challenge_delta(pk, &proof));
        assert(prove_trace(pk, row_indices@, col_indices@, stmt, &proof, round1_state, round2_state, round3_state, round4_state, q_open_polys@[0])) by {
            reveal(prove_trace);
            let pw = pk.ck.g1_powers();
            assert(round_one_spec(pk, row_indices@, col_indices@, stmt, &round1_state));
            assert(round2_state.consistent(pk));
            assert(round3_state.consistent());
            assert(round_two_spec(pk, &round1_state, round2_state.beta, &round2_state));
            assert(round2_state.beta.val() == challenge_beta(pk, &proof));
            assert(round3_state.eta.val() == challenge_eta(pk, &proof));
            let (fsc, qf, rf) = choose|fsc: Seq<int>, qf: Seq<int>, rf: Seq<int>|
                #[trigger] round_three_from(pk, &round1_state, &round2_state, eta.val(), &r3_pre, fsc, qf, rf);
            assert(round3_state.polynomials == r3_pre.polynomials);
            assert(round_three_from(pk, &round1_state, &round2_state, round3_state.eta.val(), &round3_state, fsc, qf, rf));
            assert(round4_state.alpha.val() == challenge_alpha(pk, &proof));
            assert(proof.f_comms@[4].bytes@ == kzg_commitment(pw, round2_state.polynomials[4].cv()));
            assert(proof.r_star_comm.bytes@ == kzg_commitment(pw, round3_state.polynomials[0].cv()));
            assert(proof.q_comm.bytes@ == kzg_commitment(pw, round3_state.polynomials[1].cv()));
            assert(proof.q_poly_comm.bytes@ == kzg_commitment(pw, q_open_polys@[0].cv()));
        }
        assert(s_shaped(pk, round1_state.polynomials[3]));
        assert forall|j: int| 0 <= j < 4 implies #[trigger] commits_values_on_k(
            pk,
            proof.f_comms@[j],
            f_values_on_k(pk, row_indices@, col_indices@, beta.val(), j),
        ) by {
            let fv = f_values_on_k(pk, row_indices@, col_indices@, beta.val(), j);
            assert(f_polys@[j].coeffs@ == round2_state.polynomials[j].coeffs@);
            assert(encodes_on_k(round2_state.polynomials[j], pk, fv));
        }
        let rv = delta_powers_at(pk, row_indices@);
        let cv = delta_powers_at(pk, col_indices@);
        let tv = row_values_on_k(pk, stmt);
        assert(encodes_on_k(round1_state.polynomials[0], pk, rv));
        assert(encodes_on_k(round1_state.polynomials[1], pk, cv));
        assert(encodes_on_k(round1_state.polynomials[7], pk, tv));
        assert(encodes_on_h(
            round1_state.polynomials[2],
            pk,
            mult_values(pk, row_indices@, col_indices@),
        ));
        // the operations recorded
        let e = Seq::<Op>::empty();
        let o1 = round_one_ops(pk.n, pk.m);
        let o2 = Seq::new(5, |k: int| Op::MsmG1((pk.m + 2) as usize));
        let o3 = round_two_ops(pk.m);
        let o4 = o2;
        let o5 = round_three_ops(pk.m);
        let o6 = seq![
            Op::MsmG1((pk.m + 2) as usize),
            Op::MsmG1((2 * pk.m + 4) as usize),
            Op::MsmG1((2 * pk.m + 3) as usize),
        ];
        assert(o6 =~= e.push(o6[0]).push(o6[1]).push(o6[2]));
        lemma_after_all_push(c5, e, o6[0]);
        lemma_after_all_push(c5, e.push(o6[0]), o6[1]);
        lemma_after_all_push(c5, e.push(o6[0]).push(o6[1]), o6[2]);
        crate::counting::lemma_after_all_concat(c0, o1, o2);
        crate::counting::lemma_after_all_concat(c0, o1 + o2, o3);
        crate::counting::lemma_after_all_concat(c0, o1 + o2 + o3, o4);
        crate::counting::lemma_after_all_concat(c0, o1 + o2 + o3 + o4, o5);
        crate::counting::lemma_after_all_concat(c0, o1 + o2 + o3 + o4 + o5, o6);
        assert(prove_ops(pk.n, pk.m) =~= o1 + o2 + o3 + o4 + o5 + o6);
    }
    (proof, public_inputs)
}


/// The inverse FFTs that [`prove`] records on a fresh counter, each with
/// the size of the domain it runs on: R and C over K, m(X) over H, row̃ and
/// F₁, …, F₅ over K, and q's coset IFFT over the domain of size 2m.  For
/// n ≠ m the list is [(m, 2), (n, 1), (m, 6), (2m, 1)]; for n = m the runs
/// of size m merge into (m, 9).
pub proof fn law_prove_iffts(pk: &PfrPublicKey)
    requires
        pk.wf(),
    ensures
        ({
            let r = counter_after_all(Some(crate::counting::empty_counts()), prove_ops(pk.n, pk.m));
            let k = pk.k_domain.size;
            let h = pk.h_domain.size;
            let c = pk.coset_domain.size;
            &&& r is Some
            &&& h != k ==> r.unwrap().iffts == seq![(k, 2usize), (h, 1usize), (k, 6usize), (c, 1usize)]
            &&& h == k ==> r.unwrap().iffts == seq![(k, 9usize), (c, 1usize)]
        }),
{
    let n = pk.n;
    let m = pk.m;
    let v0 = crate::counting::empty_counts();
    let c0 = Some(v0);
    let i1 = seq![Op::Ifft(m), Op::Ifft(m), Op::Ifft(n), Op::Ifft(m)];
    let x1 = Seq::new(8, |k: int| Op::Fft((2 * m) as usize)) + Seq::new(
        5,
        |k: int| Op::MsmG1((m + 2) as usize),
    ) + seq![Op::BatchInv(m), Op::BatchInv((5 * m) as usize)];
    let i2 = Seq::new(5, |k: int| Op::Ifft(m));
    let x2 = Seq::new(5, |k: int| Op::Fft((2 * m) as usize)) + Seq::new(
        5,
        |k: int| Op::MsmG1((m + 2) as usize),
    ) + Seq::new(3, |k: int| Op::Fft((2 * m) as usize)) + Seq::new(
        (2 * m) as nat,
        |k: int| Op::FieldInv,
    );
    let i3 = seq![Op::Ifft((2 * m) as usize)];
    let x3 = seq![
        Op::MsmG1((m + 2) as usize),
        Op::MsmG1((2 * m + 4) as usize),
        Op::MsmG1((2 * m + 3) as usize),
    ];
    assert(prove_ops(n, m) =~= i1 + x1 + i2 + x2 + i3 + x3);
    // the four IFFTs of round 1
    let e = Seq::<Op>::empty();
    assert(i1 =~= e.push(Op::Ifft(m)).push(Op::Ifft(m)).push(Op::Ifft(n)).push(Op::Ifft(m)));
    lemma_after_all_push(c0, e, Op::Ifft(m));
    lemma_after_all_push(c0, e.push(Op::Ifft(m)), Op::Ifft(m));
    lemma_after_all_push(c0, e.push(Op::Ifft(m)).push(Op::Ifft(m)), Op::Ifft(n));
    lemma_after_all_push(c0, e.push(Op::Ifft(m)).push(Op::Ifft(m)).push(Op::Ifft(n)), Op::Ifft(m));
    let w1 = counter_after_all(c0, i1).unwrap();
    assert(n != m ==> w1.iffts =~= seq![(m, 2usize), (n, 1usize), (m, 1usize)]);
    assert(n == m ==> w1.iffts =~= seq![(m, 4usize)]);
    // operations up to round 2's IFFTs
    crate::counting::lemma_non_ifft_keeps_iffts(w1, x1);
    crate::counting::lemma_after_all_concat(c0, i1, x1);
    let w2 = counter_after_all(c0, i1 + x1).unwrap();
    crate::counting::lemma_repeated_ifft(w2, m, 5);
    crate::counting::lemma_after_all_concat(c0, i1 + x1, i2);
    let w3 = counter_after_all(c0, i1 + x1 + i2).unwrap();
    assert(n != m ==> w3.iffts =~= seq![(m, 2usize), (n, 1usize), (m, 6usize)]);
    assert(n == m ==> w3.iffts =~= seq![(m, 9usize)]);
    crate::counting::lemma_non_ifft_keeps_iffts(w3, x2);
    crate::counting::lemma_after_all_concat(c0, i1 + x1 + i2, x2);
    // q's coset IFFT
    lemma_after_all_push(c0, i1 + x1 + i2 + x2, Op::Ifft((2 * m) as usize));
    assert(i1 + x1 + i2 + x2 + i3 =~= (i1 + x1 + i2 + x2).push(Op::Ifft((2 * m) as usize)));
    let w5 = counter_after_all(c0, i1 + x1 + i2 + x2 + i3).unwrap();
    assert(n != m ==> w5.iffts =~= seq![(m, 2usize), (n, 1usize), (m, 6usize), ((2 * m) as usize, 1usize)]);
    assert(n == m ==> w5.iffts =~= seq![(m, 9usize), ((2 * m) as usize, 1usize)]);
    crate::counting::lemma_non_ifft_keeps_iffts(w5, x3);
    crate::counting::lemma_after_all_concat(c0, i1 + x1 + i2 + x2 + i3, x3);
}


/// The forward FFTs that [`prove`] records on a fresh counter: all sixteen
/// run over the domain of size 2m on whose coset round 3 works (eight in
/// round 1, five in round 2, three in round 3).
pub proof fn law_prove_ffts(pk: &PfrPublicKey)
    requires
        pk.wf(),
    ensures
        counter_after_all(Some(crate::counting::empty_counts()), prove_ops(pk.n, pk.m)) is Some,
        counter_after_all(Some(crate::counting::empty_counts()), prove_ops(pk.n, pk.m)).unwrap().ffts
            == seq![(pk.coset_domain.size, 16usize)],
{
    let n = pk.n;
    let m = pk.m;
    let s = (2 * m) as usize;
    let c0 = Some(crate::counting::empty_counts());
    let y1 = seq![Op::Ifft(m), Op::Ifft(m), Op::Ifft(n), Op::Ifft(m)];
    let f1 = seq![Op::Fft(s)];
    let fa = Seq::new(7, |k: int| Op::Fft(s));
    let y2 = Seq::new(5, |k: int| Op::MsmG1((m + 2) as usize)) + seq![
        Op::BatchInv(m),
        Op::BatchInv((5 * m) as usize),
    ] + Seq::new(5, |k: int| Op::Ifft(m));
    let fb = Seq::new(5, |k: int| Op::Fft(s));
    let y3 = Seq::new(5, |k: int| Op::MsmG1((m + 2) as usize));
    let fc = Seq::new(3, |k: int| Op::Fft(s));
    let y4 = Seq::new((2 * m) as nat, |k: int| Op::FieldInv) + seq![Op::Ifft(s)] + seq![
        Op::MsmG1((m + 2) as usize),
        Op::MsmG1((2 * m + 4) as usize),
        Op::MsmG1((2 * m + 3) as usize),
    ];
    assert(prove_ops(n, m) =~= y1 + f1 + fa + y2 + fb + y3 + fc + y4);
    let v0 = crate::counting::empty_counts();
    crate::counting::lemma_non_fft_keeps_ffts(v0, y1);
    lemma_after_all_push(c0, y1, Op::Fft(s));
    assert(y1 + f1 =~= y1.push(Op::Fft(s)));
    let w2 = counter_after_all(c0, y1 + f1).unwrap();
    assert(w2.ffts =~= seq![(s, 1usize)]);
    crate::counting::lemma_repeated_fft(w2, s, 7);
    crate::counting::lemma_after_all_concat(c0, y1 + f1, fa);
    let w3 = counter_after_all(c0, y1 + f1 + fa).unwrap();
    assert(w3.ffts =~= seq![(s, 8usize)]);
    crate::counting::lemma_non_fft_keeps_ffts(w3, y2);
    crate::counting::lemma_after_all_concat(c0, y1 + f1 + fa, y2);
    let w4 = counter_after_all(c0, y1 + f1 + fa + y2).unwrap();
    crate::counting::lemma_repeated_fft(w4, s, 5);
    crate::counting::lemma_after_all_concat(c0, y1 + f1 + fa + y2, fb);
    let w5 = counter_after_all(c0, y1 + f1 + fa + y2 + fb).unwrap();
    assert(w5.ffts =~= seq![(s, 13usize)]);
    crate::counting::lemma_non_fft_keeps_ffts(w5, y3);
    crate::counting::lemma_after_all_concat(c0, y1 + f1 + fa + y2 + fb, y3);
    let w6 = counter_after_all(c0, y1 + f1 + fa + y2 + fb + y3).unwrap();
    crate::counting::lemma_repeated_fft(w6, s, 3);
    crate::counting::lemma_after_all_concat(c0, y1 + f1 + fa + y2 + fb + y3, fc);
    let w7 = counter_after_all(c0, y1 + f1 + fa + y2 + fb + y3 + fc).unwrap();
    assert(w7.ffts =~= seq![(s, 16usize)]);
    crate::counting::lemma_non_fft_keeps_ffts(w7, y4);
    crate::counting::lemma_after_all_concat(c0, y1 + f1 + fa + y2 + fb + y3 + fc, y4);
}

} // verus!
