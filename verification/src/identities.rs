//! The identities that the prover's polynomials satisfy on K, which the
//! batched polynomial P of round 3 combines with powers of η; the lookup
//! sum-check over K; z_{K∖H} as the indicator of H; and the batched opening
//! of round 5 at α.
use vstd::prelude::*;
use crate::field::{
    fadd, finv, fmul, fneg, fpow, fsub, inverse_known, lemma_fmul_assoc, lemma_fmul_comm,
    lemma_fmul_one, lemma_fsub_self, lemma_neg_mul_cancel, lemma_ops_canonical, modulus, Scalar,
};
use crate::poly::poly_eval;
use crate::polyalg::{lemma_poly_eval_ops, padd, pconst, pmul, pscale, psub};
use crate::prover::{round_one_spec, round_two_spec, zkh_on_k, Round1State, Round2State};
use crate::types::{PfrPublicKey, PfrStatement};

verus! {

/// `b·a − 1 = 0` when `b = 1/a` and `a ≠ 0`.
proof fn lemma_inverse_identity(a: int)
    requires
        inverse_known(a),
        0 <= a < modulus(),
        a != 0,
    ensures
        fsub(fmul(finv(a), a), 1) == 0,
{
    vstd::arithmetic::div_mod::lemma_small_mod(a as nat, modulus() as nat);
    lemma_fsub_self(1);
}

/// The rational identities of round 3 (η⁰ to η⁴ of P) vanish on K:
/// at every κ^i whose denominator is non-zero,
///
///   F₁(κ^i)(β + R(κ^i)) − 1 = 0
///   F₂(κ^i)(β + C(κ^i)) − 1 = 0
///   F₃(κ^i)(β + C(κ^i)/(Δ·R(κ^i))) − 1 = 0
///   F₄(κ^i)(β + C(κ^i)/Δᵗ) − 1 = 0
///   F₅(κ^i)(β + h(κ^i)) + m(κ^i)·z_{K∖H}(κ^i) = 0
///
/// with z_{K∖H}(X) = (n/m)·(1 + Xⁿ + … + X^{m−n}).
pub proof fn law_rational_identities_on_k(
    pk: &PfrPublicKey,
    r1: &Round1State,
    beta: Scalar,
    r2: &Round2State,
    i: int,
)
    requires
        pk.wf(),
        r1.consistent(pk),
        beta.wf(),
        round_two_spec(pk, r1, beta, r2),
        0 <= i < pk.m,
    ensures
        ({
            let x = pk.k_domain.point(i);
            let b = beta.val();
            let r = r1.polynomials[0].eval(x);
            let c = r1.polynomials[1].eval(x);
            let h = pk.h_poly.eval(x);
            let delta = pk.d_domain.point(1);
            let c_over_delta_r = fmul(c, finv(fmul(delta, r)));
            let c_over_delta_t = fmul(c, finv(fpow(delta, pk.t as nat)));
            &&& fadd(b, r) != 0 ==> fsub(fmul(r2.polynomials[0].eval(x), fadd(b, r)), 1) == 0
            &&& fadd(b, c) != 0 ==> fsub(fmul(r2.polynomials[1].eval(x), fadd(b, c)), 1) == 0
            &&& fadd(b, c_over_delta_r) != 0 ==> fsub(
                fmul(r2.polynomials[2].eval(x), fadd(b, c_over_delta_r)),
                1,
            ) == 0
            &&& fadd(b, c_over_delta_t) != 0 ==> fsub(
                fmul(r2.polynomials[3].eval(x), fadd(b, c_over_delta_t)),
                1,
            ) == 0
            &&& fadd(b, h) != 0 ==> fadd(
                fmul(r2.polynomials[4].eval(x), fadd(b, h)),
                fmul(
                    r1.polynomials[2].eval(x),
                    poly_eval(crate::types::zkh_coeffs(pk.n as int, pk.m as int), x),
                ),
            ) == 0
        }),
{
    let x = pk.k_domain.point(i);
    let b = beta.val();
    let r = r1.polynomials[0].eval(x);
    let c = r1.polynomials[1].eval(x);
    let m = r1.polynomials[2].eval(x);
    let h = pk.h_poly.eval(x);
    let delta = pk.d_domain.point(1);
    let delta_t = fpow(delta, pk.t as nat);
    let z = zkh_on_k(pk, i);
    law_zkh_on_k_is_polynomial(pk, i);
    assert(r == r1.r_evals@[i].val());
    assert(c == r1.c_evals@[i].val());
    assert(r2.polynomials[0].eval(x) == r2.f_evals[0]@[i].val());
    assert(r2.polynomials[1].eval(x) == r2.f_evals[1]@[i].val());
    assert(r2.polynomials[2].eval(x) == r2.f_evals[2]@[i].val());
    assert(r2.polynomials[3].eval(x) == r2.f_evals[3]@[i].val());
    assert(r2.polynomials[4].eval(x) == r2.f_evals[4]@[i].val());
    assert(crate::prover::round_two_inverses(b, delta, delta_t, r1.r_evals@[i].val(), r1.c_evals@[i].val(), h));
    lemma_ops_canonical(b, r);
    lemma_ops_canonical(b, c);
    lemma_ops_canonical(b, fmul(c, finv(fmul(delta, r))));
    lemma_ops_canonical(b, fmul(c, finv(delta_t)));
    lemma_ops_canonical(b, h);
    if fadd(b, r) != 0 {
        lemma_inverse_identity(fadd(b, r));
    }
    if fadd(b, c) != 0 {
        lemma_inverse_identity(fadd(b, c));
    }
    if fadd(b, fmul(c, finv(fmul(delta, r)))) != 0 {
        lemma_inverse_identity(fadd(b, fmul(c, finv(fmul(delta, r)))));
    }
    if fadd(b, fmul(c, finv(delta_t))) != 0 {
        lemma_inverse_identity(fadd(b, fmul(c, finv(delta_t))));
    }
    if fadd(b, h) != 0 {
        // F₅(β + h) = ((−m)·z·(β + h)⁻¹)·(β + h) = (−m)·z
        let hb = fadd(b, h);
        let nz = fmul(fneg(m), z);
        vstd::arithmetic::div_mod::lemma_small_mod(hb as nat, modulus() as nat);
        lemma_fmul_assoc(nz, finv(hb), hb);
        lemma_ops_canonical(fneg(m), z);
        lemma_fmul_one(nz);
        lemma_neg_mul_cancel(m, z);
    }
}

/// row̃ − row vanishes on K, whatever the blinding of row̃.
pub proof fn law_rowtilde_matches_row_on_k(
    pk: &PfrPublicKey,
    rows: Seq<usize>,
    cols: Seq<usize>,
    stmt: &PfrStatement,
    r1: &Round1State,
    i: int,
)
    requires
        round_one_spec(pk, rows, cols, stmt, r1),
        0 <= i < pk.m,
    ensures
        fsub(
            r1.polynomials[7].eval(pk.k_domain.point(i)),
            r1.polynomials[4].eval(pk.k_domain.point(i)),
        ) == 0,
{
    let x = pk.k_domain.point(i);
    assert(r1.polynomials[4].cv() == stmt.row_poly.cv());
    lemma_fsub_self(stmt.row_poly.eval(x));
}

/// ω^j for each index, i < m.
pub open spec fn omega_powers_at(pk: &PfrPublicKey, idx: Seq<usize>) -> Seq<int> {
    Seq::new(pk.m as nat, |i: int| pk.h_domain.point(idx[i] as int))
}

/// R and C are square roots of row and col on K (Δ² = ω), and
/// rowcol = row̃·col there: the η⁵, η⁶ and η⁷ identities of P vanish on K
/// when the statement was committed from the same index pairs.
pub proof fn law_square_roots_on_k(
    pk: &PfrPublicKey,
    rows: Seq<usize>,
    cols: Seq<usize>,
    stmt: &PfrStatement,
    r1: &Round1State,
    i: int,
)
    requires
        pk.wf(),
        crate::prover::statement_interpolates(
            pk,
            stmt,
            omega_powers_at(pk, rows),
            omega_powers_at(pk, cols),
        ),
        round_one_spec(pk, rows, cols, stmt, r1),
        0 <= i < pk.m,
    ensures
        ({
            let x = pk.k_domain.point(i);
            let r = r1.polynomials[0].eval(x);
            let c = r1.polynomials[1].eval(x);
            let row = r1.polynomials[4].eval(x);
            let col = r1.polynomials[5].eval(x);
            let rowcol = r1.polynomials[6].eval(x);
            let rowtilde = r1.polynomials[7].eval(x);
            &&& fsub(fmul(r, r), row) == 0
            &&& fsub(fmul(c, c), col) == 0
            &&& fsub(rowcol, fmul(rowtilde, col)) == 0
        }),
{
    let x = pk.k_domain.point(i);
    let g2 = crate::poly::domain_generator((2 * pk.n) as nat);
    let gn = crate::poly::domain_generator(pk.n as nat);
    assert(r1.polynomials[4].cv() == stmt.row_poly.cv());
    assert(r1.polynomials[5].cv() == stmt.col_poly.cv());
    assert(r1.polynomials[6].cv() == stmt.rowcol_poly.cv());
    assert(r1.polynomials[0].eval(x) == r1.r_evals@[i].val());
    assert(r1.polynomials[1].eval(x) == r1.c_evals@[i].val());
    assert(omega_powers_at(pk, rows)[i] == pk.h_domain.point(rows[i] as int));
    assert(omega_powers_at(pk, cols)[i] == pk.h_domain.point(cols[i] as int));
    // Δ² = ω
    assert(fpow(g2, 2) == fpow(gn, 1)) by {
        assert(pk.d_domain.point(2) == pk.h_domain.point(1));
    }
    crate::field::lemma_square_of_power(g2, gn, rows[i] as nat);
    crate::field::lemma_square_of_power(g2, gn, cols[i] as nat);
    assert(pk.d_domain.point(rows[i] as int) == fpow(g2, rows[i] as nat));
    assert(pk.d_domain.point(cols[i] as int) == fpow(g2, cols[i] as nat));
    assert(pk.h_domain.point(rows[i] as int) == fpow(gn, rows[i] as nat));
    assert(pk.h_domain.point(cols[i] as int) == fpow(gn, cols[i] as nat));
    assert(r1.r_evals@[i].val() == pk.d_domain.point(rows[i] as int));
    assert(r1.c_evals@[i].val() == pk.d_domain.point(cols[i] as int));
    assert(stmt.row_poly.eval(x) == pk.h_domain.point(rows[i] as int));
    assert(stmt.col_poly.eval(x) == pk.h_domain.point(cols[i] as int));
    assert(r1.polynomials[7].eval(x) == stmt.row_poly.eval(x));
    assert(stmt.rowcol_poly.eval(x) == fmul(
        omega_powers_at(pk, rows)[i],
        omega_powers_at(pk, cols)[i],
    ));
    lemma_fsub_self(fmul(pk.h_domain.point(rows[i] as int), pk.h_domain.point(cols[i] as int)));
    lemma_fsub_self(pk.h_domain.point(rows[i] as int));
    lemma_fsub_self(pk.h_domain.point(cols[i] as int));
}

// ---------------------------------------------------------------------------
// The lookup identity, eq. (7)
// ---------------------------------------------------------------------------

/// `Σ_{j < n} g(j)`.
pub open spec fn jsum(n: int, g: spec_fn(int) -> int) -> int
    decreases n,
{
    if n <= 0 {
        0
    } else {
        jsum(n - 1, g) + g(n - 1)
    }
}

pub(crate) proof fn lemma_jsum_zero(n: int, g: spec_fn(int) -> int)
    requires
        forall|j: int| 0 <= j < n ==> #[trigger] g(j) == 0,
    ensures
        jsum(n, g) == 0,
    decreases n,
{
    if n > 0 {
        lemma_jsum_zero(n - 1, g);
    }
}

pub(crate) proof fn lemma_jsum_add(n: int, a: spec_fn(int) -> int, b: spec_fn(int) -> int, c: spec_fn(int) -> int)
    requires
        forall|j: int| 0 <= j < n ==> #[trigger] c(j) == a(j) + b(j),
    ensures
        jsum(n, c) == jsum(n, a) + jsum(n, b),
    decreases n,
{
    if n > 0 {
        lemma_jsum_add(n - 1, a, b, c);
    }
}

/// `Σ_{j < n} [x = j]·f(j) = f(x)` for `0 ≤ x < n`.
proof fn lemma_jsum_point(n: int, x: int, f: spec_fn(int) -> int, c: spec_fn(int) -> int)
    requires
        0 <= x < n,
        forall|j: int| 0 <= j < n ==> #[trigger] c(j) == crate::types::ind(x, j) * f(j),
    ensures
        jsum(n, c) == f(x),
    decreases n,
{
    if n - 1 == x {
        assert forall|j: int| 0 <= j < n - 1 implies #[trigger] c(j) == 0 by {
            assert(crate::types::ind(x, j) == 0);
        }
        lemma_jsum_zero(n - 1, c);
        assert(crate::types::ind(x, x) == 1);
        assert(c(n - 1) == f(x));
    } else {
        lemma_jsum_point(n - 1, x, f, c);
        assert(crate::types::ind(x, n - 1) == 0);
        assert(c(n - 1) == 0);
    }
}

/// The first `j` of `k` valid pairs are valid.
proof fn lemma_valid_pairs_prefix(rows: Seq<usize>, cols: Seq<usize>, n: int, t: int, k: int, j: int)
    requires
        crate::types::valid_pairs(rows, cols, n, t, k),
        0 <= j <= k,
    ensures
        crate::types::valid_pairs(rows, cols, n, t, j),
{
}

proof fn lemma_distribute5(m: int, a: int, b: int, c: int, d: int, f: int)
    ensures
        (m + a + b + c + d) * f == m * f + a * f + b * f + c * f + d * f,
{
    assert((m + a + b + c + d) * f == m * f + a * f + b * f + c * f + d * f) by (nonlinear_arith);
}

/// `Σ_{i < k} f(r_i) + f(c_i) + f(c_i − r_i − 1) + f(c_i − t)`: the four
/// table lookups of each pair.
pub open spec fn four_sum(rows: Seq<usize>, cols: Seq<usize>, t: int, f: spec_fn(int) -> int, k: int) -> int
    decreases k,
{
    if k <= 0 {
        0
    } else {
        let r = rows[k - 1] as int;
        let c = cols[k - 1] as int;
        four_sum(rows, cols, t, f, k - 1) + f(r) + f(c) + f(c - r - 1) + f(c - t)
    }
}

/// `Σ_{j < n} m_j·f(j)` with the multiplicities of the first `k` pairs.
pub open spec fn weighted_sum(
    rows: Seq<usize>,
    cols: Seq<usize>,
    t: int,
    f: spec_fn(int) -> int,
    k: int,
    n: int,
) -> int {
    jsum(n, |j: int| crate::types::mult_count(rows, cols, t, k, j) * f(j))
}

/// Grouping the lookups by table index: summing `f` over the four indices
/// of every pair is summing `m_j·f(j)` over the table.
pub proof fn lemma_regroup(rows: Seq<usize>, cols: Seq<usize>, n: int, t: int, f: spec_fn(int) -> int, k: int)
    requires
        0 <= k,
        0 <= t,
        crate::types::valid_pairs(rows, cols, n, t, k),
    ensures
        four_sum(rows, cols, t, f, k) == weighted_sum(rows, cols, t, f, k, n),
    decreases k,
{
    let cur = |j: int| crate::types::mult_count(rows, cols, t, k, j) * f(j);
    if k == 0 {
        assert forall|j: int| 0 <= j < n implies #[trigger] cur(j) == 0 by {
            assert(crate::types::mult_count(rows, cols, t, k, j) == 0);
        }
        lemma_jsum_zero(n, cur);
    } else {
        lemma_valid_pairs_prefix(rows, cols, n, t, k, k - 1);
        lemma_regroup(rows, cols, n, t, f, k - 1);
        let r = rows[k - 1] as int;
        let c = cols[k - 1] as int;
        assert(r < c && c < n && c >= t);
        let prev = |j: int| crate::types::mult_count(rows, cols, t, k - 1, j) * f(j);
        let pr = |j: int| crate::types::ind(r, j) * f(j);
        let pc = |j: int| crate::types::ind(c, j) * f(j);
        let pd = |j: int| crate::types::ind(c - r - 1, j) * f(j);
        let pt = |j: int| crate::types::ind(c - t, j) * f(j);
        let s1 = |j: int| prev(j) + pr(j);
        let s2 = |j: int| s1(j) + pc(j);
        let s3 = |j: int| s2(j) + pd(j);
        assert forall|j: int| 0 <= j < n implies #[trigger] cur(j) == s3(j) + pt(j) by {
            lemma_distribute5(
                crate::types::mult_count(rows, cols, t, k - 1, j) as int,
                crate::types::ind(r, j) as int,
                crate::types::ind(c, j) as int,
                crate::types::ind(c - r - 1, j) as int,
                crate::types::ind(c - t, j) as int,
                f(j),
            );
        }
        lemma_jsum_add(n, s3, pt, cur);
        lemma_jsum_add(n, s2, pd, s3);
        lemma_jsum_add(n, s1, pc, s2);
        lemma_jsum_add(n, prev, pr, s1);
        lemma_jsum_point(n, r, f, pr);
        lemma_jsum_point(n, c, f, pc);
        lemma_jsum_point(n, c - r - 1, f, pd);
        lemma_jsum_point(n, c - t, f, pt);
    }
}

/// `1^a = 1`.
pub(crate) proof fn lemma_pow_of_one(a: nat)
    ensures
        vstd::arithmetic::power::pow(1, a) == 1,
    decreases a,
{
    reveal(vstd::arithmetic::power::pow);
    if a > 0 {
        lemma_pow_of_one((a - 1) as nat);
    }
}

/// A power of a root of unity is not 0.
proof fn lemma_fpow_nonzero(g: int, a: nat, big_n: nat)
    requires
        big_n >= 1,
        fpow(g, big_n) == 1,
    ensures
        fpow(g, a) != 0,
{
    if fpow(g, a) == 0 {
        crate::field::lemma_fpow_multiplies(g, a, big_n);
        crate::field::lemma_fpow_multiplies(g, big_n, a);
        reveal(vstd::arithmetic::power::pow);
        assert(vstd::arithmetic::power::pow(0, big_n) == 0 * vstd::arithmetic::power::pow(
            0,
            (big_n - 1) as nat,
        ));
        lemma_pow_of_one(a);
        vstd::arithmetic::mul::lemma_mul_is_commutative(a as int, big_n as int);
        assert(fpow(fpow(g, big_n), a) == 1);
        assert(false);
    }
}

/// `(e·d)/d = e` when `d` is a non-zero canonical element with a known
/// inverse and `e` is canonical.
proof fn lemma_divide_out(e: int, d: int)
    requires
        0 <= e < modulus(),
        0 <= d < modulus(),
        d != 0,
        inverse_known(d),
    ensures
        fmul(fmul(e, d), finv(d)) == e,
{
    vstd::arithmetic::div_mod::lemma_small_mod(d as nat, modulus() as nat);
    lemma_fmul_assoc(e, d, finv(d));
    lemma_fmul_comm(d, finv(d));
    lemma_fmul_one(e);
}

/// `fpow` gives canonical values.
pub(crate) proof fn lemma_fpow_canonical(b: int, e: nat)
    ensures
        0 <= fpow(b, e) < modulus(),
{
    vstd::arithmetic::div_mod::lemma_mod_bound(vstd::arithmetic::power::pow(b, e), modulus());
}

/// `1/(β + Δ^j)`: one term of the lookup identity.
pub open spec fn lookup_term(pk: &PfrPublicKey, beta: int, j: int) -> int {
    finv(fadd(beta, pk.d_domain.point(j)))
}

/// The values of F₁, …, F₄ at κ^i are lookup terms at the pair's four
/// table indices.
proof fn lemma_f_values_at(
    pk: &PfrPublicKey,
    rows: Seq<usize>,
    cols: Seq<usize>,
    stmt: &PfrStatement,
    r1: &Round1State,
    beta: Scalar,
    r2: &Round2State,
    i: int,
)
    requires
        pk.wf(),
        crate::types::valid_pairs(rows, cols, pk.n as int, pk.t as int, pk.m as int),
        round_one_spec(pk, rows, cols, stmt, r1),
        beta.wf(),
        round_two_spec(pk, r1, beta, r2),
        0 <= i < pk.m,
    ensures
        ({
            let x = pk.k_domain.point(i);
            let b = beta.val();
            let r = rows[i] as int;
            let c = cols[i] as int;
            &&& r2.polynomials[0].eval(x) == lookup_term(pk, b, r)
            &&& r2.polynomials[1].eval(x) == lookup_term(pk, b, c)
            &&& r2.polynomials[2].eval(x) == lookup_term(pk, b, c - r - 1)
            &&& r2.polynomials[3].eval(x) == lookup_term(pk, b, c - pk.t)
        }),
{
    let x = pk.k_domain.point(i);
    let b = beta.val();
    let r = rows[i] as int;
    let c = cols[i] as int;
    let t = pk.t as int;
    let n2 = (2 * pk.n) as nat;
    let g = crate::poly::domain_generator(n2);
    let delta = pk.d_domain.point(1);
    let delta_t = fpow(delta, pk.t as nat);
    assert(r < c && c < pk.n && c >= t);
    assert(r2.polynomials[0].eval(x) == r2.f_evals[0]@[i].val());
    assert(r2.polynomials[1].eval(x) == r2.f_evals[1]@[i].val());
    assert(r2.polynomials[2].eval(x) == r2.f_evals[2]@[i].val());
    assert(r2.polynomials[3].eval(x) == r2.f_evals[3]@[i].val());
    let rv = r1.r_evals@[i].val();
    let cv = r1.c_evals@[i].val();
    assert(rv == pk.d_domain.point(r));
    assert(cv == pk.d_domain.point(c));
    assert(crate::prover::round_two_inverses(
        b,
        delta,
        delta_t,
        rv,
        cv,
        pk.h_poly.eval(x),
    ));
    // g is a 2n-th root of unity.
    assert(delta == fpow(g, 1));
    crate::field::lemma_fpow_multiplies(g, 1, n2);
    assert(fpow(g, n2) == 1);
    // F₃: C/(Δ·R) = Δ^{c−r−1}
    let d3 = fmul(delta, rv);
    crate::field::lemma_fpow_adds(g, 1, r as nat);
    assert(d3 == fpow(g, (1 + r) as nat));
    crate::field::lemma_fpow_adds(g, (c - r - 1) as nat, (1 + r) as nat);
    assert(((c - r - 1) + (1 + r)) as nat == c as nat);
    lemma_fpow_nonzero(g, (1 + r) as nat, n2);
    lemma_fpow_canonical(g, (1 + r) as nat);
    lemma_fpow_canonical(g, (c - r - 1) as nat);
    lemma_divide_out(fpow(g, (c - r - 1) as nat), d3);
    assert(fmul(cv, finv(d3)) == pk.d_domain.point(c - r - 1));
    // F₄: C/Δᵗ = Δ^{c−t}
    crate::field::lemma_fpow_multiplies(g, 1, pk.t as nat);
    assert(delta_t == fpow(g, pk.t as nat));
    crate::field::lemma_fpow_adds(g, (c - t) as nat, pk.t as nat);
    assert(((c - t) + t) as nat == c as nat);
    lemma_fpow_nonzero(g, pk.t as nat, n2);
    lemma_fpow_canonical(g, pk.t as nat);
    lemma_fpow_canonical(g, (c - t) as nat);
    lemma_divide_out(fpow(g, (c - t) as nat), delta_t);
    assert(fmul(cv, finv(delta_t)) == pk.d_domain.point(c - t));
}

/// `Σ_{i < k} Σ_{j < 5} F_j(κ^i)`.
pub open spec fn f_sum_on_k(pk: &PfrPublicKey, r2: &Round2State, k: int) -> int
    decreases k,
{
    if k <= 0 {
        0
    } else {
        let x = pk.k_domain.point(k - 1);
        f_sum_on_k(pk, r2, k - 1) + r2.polynomials[0].eval(x) + r2.polynomials[1].eval(x)
            + r2.polynomials[2].eval(x) + r2.polynomials[3].eval(x) + r2.polynomials[4].eval(x)
    }
}

/// A sum of multiples of `p` is a multiple of `p`.
proof fn lemma_jsum_mod_zero(k: int, g: spec_fn(int) -> int)
    requires
        forall|i: int| 0 <= i < k ==> #[trigger] g(i) % modulus() == 0,
    ensures
        jsum(k, g) % modulus() == 0,
    decreases k,
{
    if k > 0 {
        lemma_jsum_mod_zero(k - 1, g);
        vstd::arithmetic::div_mod::lemma_add_mod_noop(jsum(k - 1, g), g(k - 1), modulus());
    }
}

pub(crate) proof fn lemma_jsum_ext(n: int, a: spec_fn(int) -> int, b: spec_fn(int) -> int)
    requires
        forall|j: int| 0 <= j < n ==> #[trigger] a(j) == b(j),
    ensures
        jsum(n, a) == jsum(n, b),
    decreases n,
{
    if n > 0 {
        lemma_jsum_ext(n - 1, a, b);
    }
}

/// The value of F₅ at κ^i: where κ^i = ω^j is a point of H (`i = (m/n)·j`)
/// it is −m_j times the lookup term at j; elsewhere on K it is 0, since
/// z_{K∖H} vanishes there.
proof fn lemma_f5_value_at(
    pk: &PfrPublicKey,
    rows: Seq<usize>,
    cols: Seq<usize>,
    stmt: &PfrStatement,
    r1: &Round1State,
    beta: Scalar,
    r2: &Round2State,
    i: int,
)
    requires
        pk.wf(),
        round_one_spec(pk, rows, cols, stmt, r1),
        beta.wf(),
        round_two_spec(pk, r1, beta, r2),
        0 <= i < pk.m,
    ensures
        ({
            let k = (pk.m / pk.n) as int;
            let f5 = r2.polynomials[4].eval(pk.k_domain.point(i));
            &&& i % k != 0 ==> f5 == 0
            &&& i % k == 0 ==> f5 == fmul(
                fneg(crate::types::mult_count(rows, cols, pk.t as int, pk.m as int, i / k) as int),
                lookup_term(pk, beta.val(), i / k),
            )
        }),
{
    let p = modulus();
    let n = pk.n as int;
    let m = pk.m as int;
    let k = m / n;
    let x = pk.k_domain.point(i);
    let b = beta.val();
    assert(r2.polynomials[4].eval(x) == r2.f_evals[4]@[i].val());
    lemma_zkh_indicator(pk, i);
    let mx = r1.polynomials[2].eval(x);
    let hx = pk.h_poly.eval(x);
    if i % k != 0 {
        lemma_ops_canonical(mx, 0);
        crate::field::lemma_zero_facts(fneg(mx));
        reveal(fmul);
        assert(0 * finv(fadd(b, hx)) == 0);
    } else {
        // κ^i = ω^j with j = i/k < n
        vstd::arithmetic::div_mod::lemma_fundamental_div_mod(m, n);
        vstd::arithmetic::div_mod::lemma_fundamental_div_mod(i, k);
        let j = i / k;
        assert(k >= 1) by (nonlinear_arith)
            requires
                m == n * k,
                m >= 1,
                n >= 1,
        ;
        assert(0 <= j < n) by (nonlinear_arith)
            requires
                i == k * j,
                0 <= i < m,
                m == n * k,
                k >= 1,
        ;
        lemma_k_point_on_h(pk, j);
        assert(x == pk.h_domain.point(j));
        assert(r1.polynomials[2].eval(pk.h_domain.point(j)) == r1.m_evals@[j].val());
        assert(pk.h_poly.eval(pk.h_domain.point(j)) == pk.d_domain.point(j));
        let mj = crate::types::mult_count(rows, cols, pk.t as int, m, j) as int;
        assert(mx == mj);
        lemma_ops_canonical(mj, 0);
        lemma_fmul_one(fneg(mj));
    }
}

/// `Σ_{j < a+d} g(j) = Σ_{j < a} g(j) + g(a)` when `g` vanishes strictly
/// between `a` and `a + d`.
proof fn lemma_jsum_tail(a: int, d: int, g: spec_fn(int) -> int)
    requires
        a >= 0,
        d >= 1,
        forall|j: int| a < j < a + d ==> #[trigger] g(j) == 0,
    ensures
        jsum(a + d, g) == jsum(a, g) + g(a),
    decreases d,
{
    if d > 1 {
        lemma_jsum_tail(a, d - 1, g);
        assert(g(a + d - 1) == 0);
    }
}

/// Summing `g` over `k·n` indices where it vanishes off the multiples of
/// `k` is summing it over the multiples: `Σ_{i < k·n} g(i) = Σ_{j < n} g(k·j)`.
proof fn lemma_jsum_sparse(k: int, n: int, g: spec_fn(int) -> int, h: spec_fn(int) -> int)
    requires
        k >= 1,
        n >= 0,
        forall|i: int| 0 <= i < k * n && i % k != 0 ==> #[trigger] g(i) == 0,
        forall|j: int| 0 <= j < n ==> #[trigger] h(j) == g(k * j),
    ensures
        jsum(k * n, g) == jsum(n, h),
    decreases n,
{
    if n > 0 {
        assert(k * n == k * (n - 1) + k) by (nonlinear_arith);
        assert(k * (n - 1) >= 0) by (nonlinear_arith)
            requires
                k >= 1,
                n >= 1,
        ;
        lemma_jsum_sparse(k, n - 1, g, h);
        assert forall|j: int| k * (n - 1) < j < k * (n - 1) + k implies #[trigger] g(j) == 0 by {
            let l = j - k * (n - 1);
            vstd::arithmetic::div_mod::lemma_mod_multiples_vanish(n - 1, l, k);
            vstd::arithmetic::div_mod::lemma_small_mod(l as nat, k as nat);
        }
        lemma_jsum_tail(k * (n - 1), k, g);
        assert(h(n - 1) == g(k * (n - 1)));
        assert(jsum(k * n, g) == jsum(k * (n - 1) + k, g));
    } else {
        assert(k * n == 0) by (nonlinear_arith)
            requires
                n == 0,
        ;
    }
}

/// The first `k` rows of the F-sum split into the four table lookups of
/// the first `k` pairs and the F₅ values.
proof fn lemma_f_sum_split(
    pk: &PfrPublicKey,
    rows: Seq<usize>,
    cols: Seq<usize>,
    stmt: &PfrStatement,
    r1: &Round1State,
    beta: Scalar,
    r2: &Round2State,
    k: int,
)
    requires
        pk.wf(),
        crate::types::valid_pairs(rows, cols, pk.n as int, pk.t as int, pk.m as int),
        round_one_spec(pk, rows, cols, stmt, r1),
        beta.wf(),
        round_two_spec(pk, r1, beta, r2),
        0 <= k <= pk.m,
    ensures
        f_sum_on_k(pk, r2, k) == four_sum(
            rows,
            cols,
            pk.t as int,
            |j: int| lookup_term(pk, beta.val(), j),
            k,
        ) + jsum(k, |i: int| r2.polynomials[4].eval(pk.k_domain.point(i))),
    decreases k,
{
    if k > 0 {
        lemma_f_sum_split(pk, rows, cols, stmt, r1, beta, r2, k - 1);
        lemma_f_values_at(pk, rows, cols, stmt, r1, beta, r2, k - 1);
    }
}

/// The lookup identity (eq. 7), summed over K:
///
///   Σ_{i < m} (F₁ + F₂ + F₃ + F₄ + F₅)(κ^i) = 0
///
/// because the four lookups of every pair, grouped by table index, give
/// Σ_j m_j/(β + Δ^j), and F₅, which z_{K∖H} confines to the points of H,
/// sums to −Σ_j m_j/(β + Δ^j).  It holds for every β, also where a
/// denominator vanishes (its inverse is then 0 on both sides).
pub proof fn law_lookup_sumcheck(
    pk: &PfrPublicKey,
    rows: Seq<usize>,
    cols: Seq<usize>,
    stmt: &PfrStatement,
    r1: &Round1State,
    beta: Scalar,
    r2: &Round2State,
)
    requires
        pk.wf(),
        crate::types::valid_pairs(rows, cols, pk.n as int, pk.t as int, pk.m as int),
        round_one_spec(pk, rows, cols, stmt, r1),
        beta.wf(),
        round_two_spec(pk, r1, beta, r2),
    ensures
        f_sum_on_k(pk, r2, pk.m as int) % modulus() == 0,
{
    let n = pk.n as int;
    let m = pk.m as int;
    let k = m / n;
    let t = pk.t as int;
    let f = |j: int| lookup_term(pk, beta.val(), j);
    let f5 = |i: int| r2.polynomials[4].eval(pk.k_domain.point(i));
    let g5 = |j: int|
        fmul(fneg(crate::types::mult_count(rows, cols, t, m, j) as int), lookup_term(pk, beta.val(), j));
    let mf = |j: int| crate::types::mult_count(rows, cols, t, m, j) * f(j);
    let both = |j: int| g5(j) + mf(j);
    lemma_f_sum_split(pk, rows, cols, stmt, r1, beta, r2, m);
    lemma_regroup(rows, cols, n, t, f, m);
    lemma_jsum_ext(n, |j: int| crate::types::mult_count(rows, cols, t, m, j) * f(j), mf);
    // F₅ lives on the multiples of k = m/n.
    vstd::arithmetic::div_mod::lemma_fundamental_div_mod(m, n);
    assert(m == k * n) by (nonlinear_arith)
        requires
            m == n * k,
    ;
    assert(k >= 1) by (nonlinear_arith)
        requires
            m == k * n,
            m >= 1,
            n >= 1,
    ;
    assert forall|i: int| 0 <= i < k * n && i % k != 0 implies #[trigger] f5(i) == 0 by {
        lemma_f5_value_at(pk, rows, cols, stmt, r1, beta, r2, i);
    }
    assert forall|j: int| 0 <= j < n implies #[trigger] g5(j) == f5(k * j) by {
        assert(0 <= k * j < m) by (nonlinear_arith)
            requires
                0 <= j < n,
                m == k * n,
                k >= 1,
        ;
        lemma_f5_value_at(pk, rows, cols, stmt, r1, beta, r2, k * j);
        vstd::arithmetic::mul::lemma_mul_is_commutative(k, j);
        vstd::arithmetic::div_mod::lemma_mod_multiples_basic(j, k);
        vstd::arithmetic::div_mod::lemma_div_multiples_vanish(j, k);
    }
    lemma_jsum_sparse(k, n, f5, g5);
    lemma_jsum_ext(m, |i: int| r2.polynomials[4].eval(pk.k_domain.point(i)), f5);
    lemma_jsum_add(n, g5, mf, both);
    assert forall|j: int| 0 <= j < n implies #[trigger] both(j) % modulus() == 0 by {
        let x = crate::types::mult_count(rows, cols, t, m, j) * f(j);
        crate::field::lemma_neg_mul(crate::types::mult_count(rows, cols, t, m, j) as int, f(j));
        vstd::arithmetic::div_mod::lemma_add_mod_noop_right(x, 0 - x, modulus());
    }
    lemma_jsum_mod_zero(n, both);
}

// ---------------------------------------------------------------------------
// z_{K∖H} on K
// ---------------------------------------------------------------------------

/// `Σ cᵢ·xⁱ` over the integers, in Horner form.
pub open spec fn horner(c: Seq<int>, x: int) -> int
    decreases c.len(),
{
    if c.len() == 0 {
        0
    } else {
        c[0] + x * horner(c.drop_first(), x)
    }
}

pub(crate) proof fn lemma_poly_eval_horner(c: Seq<int>, x: int)
    ensures
        poly_eval(c, x) == horner(c, x) % modulus(),
    decreases c.len(),
{
    if c.len() > 0 {
        let p = modulus();
        let h = horner(c.drop_first(), x);
        lemma_poly_eval_horner(c.drop_first(), x);
        vstd::arithmetic::div_mod::lemma_mul_mod_noop_right(x, h, p);
        vstd::arithmetic::div_mod::lemma_add_mod_noop_right(c[0], x * (h % p), p);
        vstd::arithmetic::div_mod::lemma_add_mod_noop_right(c[0], x * h, p);
    }
}

/// `z` zeros followed by `c` is `x^z` times `c`.
proof fn lemma_horner_zeros(z: nat, c: Seq<int>, x: int)
    ensures
        horner(Seq::new(z, |i: int| 0int) + c, x) == vstd::arithmetic::power::pow(x, z) * horner(c, x),
    decreases z,
{
    reveal(vstd::arithmetic::power::pow);
    let s = Seq::new(z, |i: int| 0int) + c;
    if z == 0 {
        assert(s =~= c);
    } else {
        assert(s.drop_first() =~= Seq::new((z - 1) as nat, |i: int| 0int) + c);
        lemma_horner_zeros((z - 1) as nat, c, x);
        let pz = vstd::arithmetic::power::pow(x, (z - 1) as nat);
        assert(s[0] == 0);
        assert(horner(s, x) == s[0] + x * horner(s.drop_first(), x));
        assert(vstd::arithmetic::power::pow(x, z) == x * pz);
        assert(x * (pz * horner(c, x)) == (x * pz) * horner(c, x)) by (nonlinear_arith);
    }
}

/// The coefficients `s` at the multiples of `n` below `(k − 1)·n + 1`, 0
/// elsewhere.
pub open spec fn sparse_coeffs(n: int, k: int, s: int) -> Seq<int> {
    Seq::new(((k - 1) * n + 1) as nat, |i: int| if i % n == 0 { s } else { 0 })
}

/// `1 + y + … + y^{k−1}` in the nested form `1 + y·(1 + y·(…))`.
pub open spec fn nested_geom(y: int, k: int) -> int
    decreases k,
{
    if k <= 0 {
        0
    } else {
        1 + y * nested_geom(y, k - 1)
    }
}

/// The sparse polynomial is `s·(1 + xⁿ + … + x^{(k−1)n})`.
pub(crate) proof fn lemma_horner_sparse(n: int, k: int, s: int, x: int)
    requires
        n >= 1,
        k >= 1,
    ensures
        horner(sparse_coeffs(n, k, s), x) == s * nested_geom(
            vstd::arithmetic::power::pow(x, n as nat),
            k,
        ),
    decreases k,
{
    let y = vstd::arithmetic::power::pow(x, n as nat);
    let c = sparse_coeffs(n, k, s);
    if k == 1 {
        assert((k - 1) * n + 1 == 1) by (nonlinear_arith)
            requires
                k == 1,
        ;
        assert(c.len() == 1);
        assert(c[0] == s) by {
            vstd::arithmetic::div_mod::lemma_small_mod(0, n as nat);
        }
        assert(c.drop_first().len() == 0);
        assert(horner(c.drop_first(), x) == 0);
        assert(horner(c, x) == s + x * 0);
        assert(nested_geom(y, 0) == 0);
        assert(nested_geom(y, 1) == 1 + y * 0);
        assert(x * 0 == 0);
        assert(y * 0 == 0);
        assert(s * 1 == s);
    } else {
        lemma_horner_sparse(n, k - 1, s, x);
        let rest = sparse_coeffs(n, k - 1, s);
        assert((k - 1) * n + 1 == (n - 1) + ((k - 2) * n + 1) + 1) by (nonlinear_arith);
        assert(c.drop_first() =~= Seq::new((n - 1) as nat, |i: int| 0int) + rest) by {
            assert forall|i: int| 0 <= i < c.drop_first().len() implies c.drop_first()[i] == (
            Seq::new((n - 1) as nat, |i: int| 0int) + rest)[i] by {
                if i < n - 1 {
                    vstd::arithmetic::div_mod::lemma_small_mod((i + 1) as nat, n as nat);
                } else {
                    vstd::arithmetic::div_mod::lemma_mod_add_multiples_vanish(i + 1 - n, n);
                }
            }
        }
        assert(c[0] == s) by {
            vstd::arithmetic::div_mod::lemma_small_mod(0, n as nat);
        }
        lemma_horner_zeros((n - 1) as nat, rest, x);
        reveal(vstd::arithmetic::power::pow);
        vstd::arithmetic::power::lemma_pow_adds(x, 1, (n - 1) as nat);
        vstd::arithmetic::power::lemma_pow1(x);
        let pn1 = vstd::arithmetic::power::pow(x, (n - 1) as nat);
        let g = nested_geom(y, k - 1);
        assert(x * (pn1 * (s * g)) == s * (y * g)) by (nonlinear_arith)
            requires
                y == x * pn1,
        ;
        assert(s + s * (y * g) == s * (1 + y * g)) by (nonlinear_arith);
    }
}

/// `Σ_{j<k} b^j` over the integers, summed from `j = 0` up.
pub open spec fn int_geom(b: int, k: int) -> int
    decreases k,
{
    if k <= 0 {
        0
    } else {
        int_geom(b, k - 1) + vstd::arithmetic::power::pow(b, (k - 1) as nat)
    }
}

/// The two ways of writing the geometric sum agree.
pub(crate) proof fn lemma_geom_forms(y: int, k: int)
    requires
        k >= 0,
    ensures
        int_geom(y, k) == nested_geom(y, k),
    decreases k,
{
    if k >= 1 {
        lemma_geom_forms(y, k - 1);
        lemma_geom_shift(y, k);
    }
}

/// `Σ_{j<k} y^j = 1 + y·Σ_{j<k−1} y^j` for `k ≥ 1`.
proof fn lemma_geom_shift(y: int, k: int)
    requires
        k >= 1,
    ensures
        int_geom(y, k) == 1 + y * int_geom(y, k - 1),
    decreases k,
{
    reveal(vstd::arithmetic::power::pow);
    if k == 1 {
        assert(int_geom(y, 0) == 0);
        assert(y * 0 == 0);
    } else {
        lemma_geom_shift(y, k - 1);
        let a = int_geom(y, k - 2);
        let pk2 = vstd::arithmetic::power::pow(y, (k - 2) as nat);
        assert(vstd::arithmetic::power::pow(y, (k - 1) as nat) == y * pk2);
        assert(1 + y * a + y * pk2 == 1 + y * (a + pk2)) by (nonlinear_arith);
    }
}

/// The field geometric sum is the integer one modulo `p`.
proof fn lemma_geom_sum_mod(b: int, y: int, k: nat)
    requires
        b == y % modulus(),
    ensures
        crate::prover::geom_sum(b, k) == int_geom(y, k as int) % modulus(),
    decreases k,
{
    let p = modulus();
    if k == 0 {
        assert(int_geom(y, 0) == 0);
    } else {
        lemma_geom_sum_mod(b, y, (k - 1) as nat);
        reveal(fadd);
        vstd::arithmetic::power::lemma_pow_mod_noop(y, (k - 1) as nat, p);
        let a = int_geom(y, k - 1);
        let t = vstd::arithmetic::power::pow(y, (k - 1) as nat);
        vstd::arithmetic::div_mod::lemma_add_mod_noop(a, t, p);
    }
}

/// On K, the geometric form of z_{K∖H} that round 2 uses is the value of
/// the polynomial (n/m)·(1 + Xⁿ + … + X^{m−n}):
/// z_{K∖H}(κ^i) computed as (n/m)·Σ_{k<m/n} (κⁿ)^{k·i}.
pub proof fn law_zkh_on_k_is_polynomial(pk: &PfrPublicKey, i: int)
    requires
        pk.wf(),
        0 <= i,
    ensures
        zkh_on_k(pk, i) == poly_eval(
            crate::types::zkh_coeffs(pk.n as int, pk.m as int),
            pk.k_domain.point(i),
        ),
{
    let p = modulus();
    let n = pk.n as int;
    let m = pk.m as int;
    let steps = m / n;
    let s = fmul(n, finv(m));
    let g = crate::poly::domain_generator(pk.m as nat);
    let x = pk.k_domain.point(i);
    assert(steps >= 1) by (nonlinear_arith)
        requires
            steps == m / n,
            1 <= n <= m,
    ;
    // the coefficients
    assert(crate::types::zkh_coeffs(n, m) =~= sparse_coeffs(n, steps, s));
    lemma_poly_eval_horner(sparse_coeffs(n, steps, s), x);
    lemma_horner_sparse(n, steps, s, x);
    let y = vstd::arithmetic::power::pow(x, n as nat);
    lemma_geom_forms(y, steps);
    // the base: (κⁿ)^i = (κ^i)ⁿ
    let base = fpow(pk.k_domain.point(n), i as nat);
    crate::field::lemma_fpow_multiplies(g, n as nat, i as nat);
    crate::field::lemma_fpow_multiplies(g, i as nat, n as nat);
    vstd::arithmetic::mul::lemma_mul_is_commutative(n, i);
    assert(base == fpow(x, n as nat));
    assert(base == y % p);
    lemma_geom_sum_mod(base, y, steps as nat);
    // (n/m)·(G mod p) = (n/m)·G mod p
    reveal(fmul);
    let big_g = int_geom(y, steps);
    vstd::arithmetic::div_mod::lemma_mul_mod_noop_right(s, big_g, p);
}

// ---------------------------------------------------------------------------
// z_{K∖H} on K: 1 on H, 0 elsewhere
// ---------------------------------------------------------------------------

/// `Σ_{j<h+l} y^j = Σ_{j<h} y^j + y^h·Σ_{j<l} y^j`.
proof fn lemma_int_geom_split(y: int, h: nat, l: nat)
    ensures
        int_geom(y, (h + l) as int) == int_geom(y, h as int) + vstd::arithmetic::power::pow(y, h)
            * int_geom(y, l as int),
    decreases l,
{
    let ph = vstd::arithmetic::power::pow(y, h);
    if l == 0 {
        assert(int_geom(y, 0) == 0);
        assert(ph * 0 == 0);
    } else {
        lemma_int_geom_split(y, h, (l - 1) as nat);
        vstd::arithmetic::power::lemma_pow_adds(y, h, (l - 1) as nat);
        let pl = vstd::arithmetic::power::pow(y, (l - 1) as nat);
        let g = int_geom(y, (l - 1) as int);
        assert(((h + l) - 1) as nat == h + (l - 1) as nat);
        assert(ph * g + ph * pl == ph * (g + pl)) by (nonlinear_arith);
    }
}

/// `Σ_{j<k} 1^j = k`.
proof fn lemma_int_geom_one(k: nat)
    ensures
        int_geom(1, k as int) == k,
    decreases k,
{
    if k > 0 {
        lemma_int_geom_one((k - 1) as nat);
        lemma_pow_of_one((k - 1) as nat);
    }
}

/// `(p − 1)·(p − 1) = p·(p − 2) + 1`.
proof fn lemma_square_minus_one(p: int)
    ensures
        (p - 1) * (p - 1) == p * (p - 2) + 1,
{
    assert((p - 1) * (p - 1) == p * (p - 2) + 1) by (nonlinear_arith);
}

/// `(−1)·(−1) = 1` in the field.
pub(crate) proof fn lemma_minus_one_squared()
    ensures
        fmul(modulus() - 1, modulus() - 1) == 1,
{
    reveal(fmul);
    let p = modulus();
    lemma_square_minus_one(p);
    vstd::arithmetic::div_mod::lemma_mod_multiples_vanish(p - 2, 1, p);
    vstd::arithmetic::div_mod::lemma_small_mod(1, p as nat);
}

/// A power of two divided by a smaller power of two that divides it is a
/// power of two.
proof fn lemma_pow2_quotient(m: nat, n: nat)
    requires
        crate::poly::is_pow2(m),
        crate::poly::is_pow2(n),
        1 <= n <= m,
        m % n == 0,
    ensures
        crate::poly::is_pow2(m / n),
    decreases n,
{
    if n > 1 {
        let a = n / 2;
        let k = m / n;
        assert(n % 2 == 0 && crate::poly::is_pow2(a));
        assert(m % 2 == 0 && crate::poly::is_pow2(m / 2));
        vstd::arithmetic::div_mod::lemma_fundamental_div_mod(m as int, n as int);
        assert(m == 2 * (a * k)) by (nonlinear_arith)
            requires
                m == n * k,
                n == 2 * a,
        ;
        vstd::arithmetic::div_mod::lemma_div_multiples_vanish((a * k) as int, 2);
        assert(m / 2 == a * k);
        vstd::arithmetic::mul::lemma_mul_is_commutative(a as int, k as int);
        vstd::arithmetic::div_mod::lemma_mod_multiples_basic(k as int, a as int);
        vstd::arithmetic::div_mod::lemma_div_multiples_vanish(k as int, a as int);
        assert(k >= 1) by (nonlinear_arith)
            requires
                m == n * k,
                m >= 1,
                n >= 1,
        ;
        assert(a <= m / 2) by (nonlinear_arith)
            requires
                m / 2 == a * k,
                k >= 1,
                a >= 1,
        ;
        lemma_pow2_quotient(m / 2, a);
        assert((m / 2) / a == k);
    } else {
        vstd::arithmetic::div_mod::lemma_div_basics(m as int);
    }
}

/// For `k` a power of two, `c^{k/2} = −1` and `k ∤ i`, the sum
/// `Σ_{j<k} (c^i)^j` is a multiple of `p`: halving the sum as
/// `(1 + b^{k/2})·Σ_{j<k/2} b^j` with `b = c^i` gives a factor
/// `1 + b^{k/2} = 0` (i odd) or a shorter sum of the same kind (i even).
pub(crate) proof fn lemma_geom_vanishes(c: int, k: nat, i: nat)
    requires
        crate::poly::is_pow2(k),
        k >= 2,
        fpow(c, k / 2) == modulus() - 1,
        i % k != 0,
    ensures
        int_geom(fpow(c, i), k as int) % modulus() == 0,
    decreases k,
{
    let p = modulus();
    let h = (k / 2) as nat;
    let b = fpow(c, i);
    assert(k % 2 == 0 && crate::poly::is_pow2(h));
    assert(h + h == k);
    lemma_int_geom_split(b, h, h);
    let g = int_geom(b, h as int);
    let ph = vstd::arithmetic::power::pow(b, h);
    assert(int_geom(b, k as int) == (1 + ph) * g) by (nonlinear_arith)
        requires
            int_geom(b, k as int) == g + ph * g,
    ;
    if i % 2 == 1 {
        // b^h = c^{i·h} = (c^k)^q · c^h = −1, with i = 2q + 1.
        let q = (i / 2) as nat;
        assert(i == 2 * q + 1);
        assert(i * h == k * q + h) by (nonlinear_arith)
            requires
                i == 2 * q + 1,
                k == 2 * h,
        ;
        crate::field::lemma_fpow_multiplies(c, i, h);
        crate::field::lemma_fpow_adds(c, k * q, h);
        crate::field::lemma_fpow_multiplies(c, k, q);
        crate::field::lemma_fpow_adds(c, h, h);
        lemma_minus_one_squared();
        assert(fpow(c, k) == 1);
        lemma_pow_of_one(q);
        vstd::arithmetic::div_mod::lemma_small_mod(1, p as nat);
        assert(fpow(1, q) == 1);
        lemma_fmul_one(p - 1);
        assert(fpow(b, h) == p - 1);
        vstd::arithmetic::div_mod::lemma_add_mod_noop(1, ph, p);
        vstd::arithmetic::div_mod::lemma_mod_self_0(p);
        assert((1 + ph) % p == 0);
        vstd::arithmetic::div_mod::lemma_mul_mod_noop_left(1 + ph, g, p);
        assert(0 * g == 0);
    } else {
        // i = 2·i2: the sum over k/2 terms of (c²)^{i2} = b already vanishes.
        let i2 = (i / 2) as nat;
        assert(i == 2 * i2);
        if k == 2 {
            assert(false);
        }
        assert(h >= 2 && h % 2 == 0);
        let c2 = fpow(c, 2);
        crate::field::lemma_fpow_multiplies(c, 2, h / 2);
        assert(2 * (h / 2) == h);
        assert(fpow(c2, h / 2) == p - 1);
        assert(i2 % h != 0) by {
            if i2 % h == 0 {
                vstd::arithmetic::div_mod::lemma_fundamental_div_mod(i2 as int, h as int);
                let s = i2 / h;
                assert(i == k * s) by (nonlinear_arith)
                    requires
                        i2 == h * s,
                        i == 2 * i2,
                        k == 2 * h,
                ;
                vstd::arithmetic::mul::lemma_mul_is_commutative(k as int, s as int);
                vstd::arithmetic::div_mod::lemma_mod_multiples_basic(s as int, k as int);
            }
        }
        lemma_geom_vanishes(c2, h, i2);
        crate::field::lemma_fpow_multiplies(c, 2, i2);
        assert(fpow(c2, i2) == b);
        vstd::arithmetic::div_mod::lemma_mul_mod_noop_right(1 + ph, g, p);
        assert((1 + ph) * 0 == 0);
    }
}

/// The multiples of `m/n` index H inside K: κ^{(m/n)·j} = ω^j.
proof fn lemma_k_point_on_h(pk: &PfrPublicKey, j: int)
    requires
        pk.wf(),
        0 <= j,
    ensures
        pk.k_domain.point((pk.m / pk.n) * j) == pk.h_domain.point(j),
{
    reveal(PfrPublicKey::k_roots);
    let k = (pk.m / pk.n) as nat;
    let gm = crate::poly::domain_generator(pk.m as nat);
    let gn = crate::poly::domain_generator(pk.n as nat);
    crate::field::lemma_fpow_multiplies(gm, k, j as nat);
    crate::field::lemma_fpow_multiplies(gn, 1, j as nat);
    assert(((pk.m / pk.n) * j) as nat == k * (j as nat));
}

/// z_{K∖H} on K is the indicator of H: at κ^i it is 1 where `m/n` divides
/// `i` and 0 elsewhere.
proof fn lemma_zkh_indicator(pk: &PfrPublicKey, i: int)
    requires
        pk.wf(),
        0 <= i < pk.m,
    ensures
        i % ((pk.m / pk.n) as int) == 0 ==> zkh_on_k(pk, i) == 1,
        i % ((pk.m / pk.n) as int) != 0 ==> zkh_on_k(pk, i) == 0,
{
    let p = modulus();
    let n = pk.n as int;
    let m = pk.m as int;
    let k = m / n;
    let gm = crate::poly::domain_generator(pk.m as nat);
    let c = pk.k_domain.point(n);
    let base = fpow(c, i as nat);
    let s = fmul(n, finv(m));
    crate::field::lemma_pow2_inverse_known(pk.m as nat);
    vstd::arithmetic::div_mod::lemma_fundamental_div_mod(m, n);
    assert(m == n * k);
    assert(k >= 1) by (nonlinear_arith)
        requires
            m == n * k,
            m >= 1,
            n >= 1,
    ;
    assert(m < p) by {
        assert(crate::poly::valid_domain_size(pk.m as nat));
    }
    lemma_fpow_canonical(gm, n as nat);
    lemma_fpow_canonical(c, i as nat);
    vstd::arithmetic::div_mod::lemma_small_mod(base as nat, p as nat);
    lemma_geom_sum_mod(base, base, k as nat);
    crate::field::lemma_fpow_multiplies(gm, n as nat, i as nat);
    if i % k == 0 {
        // i = k·j: (κⁿ)^i = κ^{m·j} = 1, so the sum is m/n and z = (n/m)·(m/n) = 1.
        vstd::arithmetic::div_mod::lemma_fundamental_div_mod(i, k);
        let j = i / k;
        assert(j >= 0) by {
            vstd::arithmetic::div_mod::lemma_div_pos_is_pos(i, k);
        }
        assert(n * i == j * m) by (nonlinear_arith)
            requires
                i == k * j,
                m == n * k,
        ;
        crate::field::lemma_fpow_multiplies(gm, j as nat, pk.m as nat);
        lemma_k_point_root(pk, j);
        crate::field::lemma_fpow_multiplies(gm, 1, j as nat);
        assert(pk.k_domain.point(j) == fpow(gm, j as nat));
        assert(base == 1);
        lemma_int_geom_one(k as nat);
        vstd::arithmetic::div_mod::lemma_small_mod(k as nat, p as nat);
        assert(crate::prover::geom_sum(base, k as nat) == k);
        // (n·(1/m) mod p)·k ≡ (1/m)·m ≡ 1
        reveal(fmul);
        vstd::arithmetic::div_mod::lemma_small_mod(m as nat, p as nat);
        vstd::arithmetic::div_mod::lemma_mul_mod_noop_left(n * finv(m), k, p);
        assert(n * finv(m) * k == finv(m) * m) by (nonlinear_arith)
            requires
                m == n * k,
        ;
    } else {
        // (κⁿ)^{k/2} = κ^{m/2} = −1, and k ∤ i: the sum vanishes.
        reveal(PfrPublicKey::k_roots);
        vstd::arithmetic::div_mod::lemma_mod_multiples_basic(i, 1);
        assert(k >= 2);
        lemma_pow2_quotient(pk.m as nat, pk.n as nat);
        assert(k % 2 == 0);
        assert(n * (k / 2) == m / 2) by (nonlinear_arith)
            requires
                m == n * k,
                k % 2 == 0,
                k >= 2,
        ;
        crate::field::lemma_fpow_multiplies(gm, n as nat, (k / 2) as nat);
        crate::field::lemma_fpow_multiplies(gm, 1, (m / 2) as nat);
        assert(fpow(c, (k / 2) as nat) == p - 1);
        lemma_geom_vanishes(c, k as nat, i as nat);
        assert(crate::prover::geom_sum(base, k as nat) == 0);
        lemma_ops_canonical(n, finv(m));
        crate::field::lemma_zero_facts(s);
    }
}

/// z_{K∖H} is the indicator of H on K: where m/n divides i, κ^i is the
/// point ω^{i/(m/n)} of H and z_{K∖H}(κ^i) = 1; at every other point of K,
/// z_{K∖H}(κ^i) = 0.
pub proof fn law_zkh_indicator_on_k(pk: &PfrPublicKey, i: int)
    requires
        pk.wf(),
        0 <= i < pk.m,
    ensures
        ({
            let k = (pk.m / pk.n) as int;
            let x = pk.k_domain.point(i);
            let z = poly_eval(crate::types::zkh_coeffs(pk.n as int, pk.m as int), x);
            &&& i % k == 0 ==> x == pk.h_domain.point(i / k) && z == 1
            &&& i % k != 0 ==> z == 0
        }),
{
    let k = (pk.m / pk.n) as int;
    law_zkh_on_k_is_polynomial(pk, i);
    lemma_zkh_indicator(pk, i);
    if i % k == 0 {
        assert(k >= 1) by {
            vstd::arithmetic::div_mod::lemma_fundamental_div_mod(pk.m as int, pk.n as int);
            assert(k >= 1) by (nonlinear_arith)
                requires
                    pk.m == pk.n * k,
                    pk.m >= 1,
                    pk.n >= 1,
            ;
        }
        vstd::arithmetic::div_mod::lemma_fundamental_div_mod(i, k);
        vstd::arithmetic::div_mod::lemma_div_pos_is_pos(i, k);
        lemma_k_point_on_h(pk, i / k);
    }
}

// ---------------------------------------------------------------------------
// The batched identity of round 3
// ---------------------------------------------------------------------------

/// `d·(β + c/d) = β·d + c` and so `F·(β·d + c) = d` when `F·(β + c/d) = 1`.
proof fn lemma_clear_denominator(f: int, beta: int, c: int, d: int)
    requires
        0 <= f < modulus(),
        0 <= beta < modulus(),
        0 <= c < modulus(),
        0 <= d < modulus(),
        d != 0,
        inverse_known(d),
        fmul(f, fadd(beta, fmul(c, finv(d)))) == 1,
    ensures
        fsub(fmul(f, fadd(fmul(beta, d), c)), d) == 0,
{
    let u = fadd(beta, fmul(c, finv(d)));
    crate::field::lemma_fmul_distrib(d, beta, fmul(c, finv(d)));
    lemma_fmul_comm(d, fmul(c, finv(d)));
    lemma_fmul_assoc(c, finv(d), d);
    lemma_fmul_comm(finv(d), d);
    vstd::arithmetic::div_mod::lemma_small_mod(d as nat, modulus() as nat);
    lemma_fmul_one(c);
    lemma_fmul_comm(d, beta);
    assert(fmul(d, u) == fadd(fmul(beta, d), c));
    lemma_fmul_assoc(f, d, u);
    lemma_fmul_comm(f, d);
    lemma_fmul_assoc(d, f, u);
    lemma_fmul_one(d);
    lemma_fsub_self(d);
}

/// The points of K are m-th roots of unity.
proof fn lemma_k_point_root(pk: &PfrPublicKey, i: int)
    requires
        pk.wf(),
        0 <= i,
    ensures
        fpow(pk.k_domain.point(i), pk.m as nat) == 1,
{
    let g = crate::poly::domain_generator(pk.m as nat);
    let m = pk.m as nat;
    crate::field::lemma_fpow_multiplies(g, 1, m);
    crate::field::lemma_fpow_multiplies(g, i as nat, m);
    crate::field::lemma_fpow_multiplies(g, m, i as nat);
    vstd::arithmetic::mul::lemma_mul_is_commutative(i, m as int);
    lemma_pow_of_one(i as nat);
    vstd::arithmetic::div_mod::lemma_small_mod(1, modulus() as nat);
}

/// The batched identity behind q (round 3) vanishes on K: at every κ^i
/// where the five denominators of eq. (8) are non-zero,
///
///   P(κ^i)/U(κ^i) − η⁹·R_F(κ^i) = 0,
///
/// P/U being the η-combination of [`crate::prover::batched_terms`] of the
/// polynomials' values at κ^i and R_F the remainder of ΣFⱼ + η·S modulo z_K,
/// when the statement was committed from the same index pairs.  So
/// P/U − η⁹·R_F is divisible by z_K, as the computation of q assumes.
#[verifier::spinoff_prover]
#[verifier::rlimit(40)]
pub proof fn law_batched_identity_on_k(
    pk: &PfrPublicKey,
    rows: Seq<usize>,
    cols: Seq<usize>,
    stmt: &PfrStatement,
    r1: &Round1State,
    beta: Scalar,
    r2: &Round2State,
    eta: Scalar,
    r3: &crate::prover::Round3State,
    fsc: Seq<int>,
    qf: Seq<int>,
    rf: Seq<int>,
    i: int,
)
    requires
        pk.wf(),
        crate::prover::statement_interpolates(
            pk,
            stmt,
            omega_powers_at(pk, rows),
            omega_powers_at(pk, cols),
        ),
        round_one_spec(pk, rows, cols, stmt, r1),
        beta.wf(),
        round_two_spec(pk, r1, beta, r2),
        eta.wf(),
        crate::prover::round_three_from(pk, r1, r2, eta.val(), r3, fsc, qf, rf),
        0 <= i < pk.m,
        ({
            let x = pk.k_domain.point(i);
            let b = beta.val();
            let r = r1.polynomials[0].eval(x);
            let c = r1.polynomials[1].eval(x);
            let delta = pk.d_domain.point(1);
            &&& fadd(b, r) != 0
            &&& fadd(b, c) != 0
            &&& fadd(b, fmul(c, finv(fmul(delta, r)))) != 0
            &&& fadd(b, fmul(c, finv(fpow(delta, pk.t as nat)))) != 0
            &&& fadd(b, pk.h_poly.eval(x)) != 0
        }),
    ensures
        ({
            let x = pk.k_domain.point(i);
            fsub(
                crate::prover::batched_terms(
                    beta.val(),
                    pk.d_domain.point(1),
                    fpow(pk.d_domain.point(1), pk.t as nat),
                    eta.val(),
                    r1.polynomials[0].eval(x),
                    r1.polynomials[1].eval(x),
                    r1.polynomials[2].eval(x),
                    r1.polynomials[4].eval(x),
                    r1.polynomials[5].eval(x),
                    r1.polynomials[6].eval(x),
                    r1.polynomials[7].eval(x),
                    seq![
                        r2.polynomials[0].eval(x),
                        r2.polynomials[1].eval(x),
                        r2.polynomials[2].eval(x),
                        r2.polynomials[3].eval(x),
                        r2.polynomials[4].eval(x),
                    ],
                    pk.h_poly.eval(x),
                    poly_eval(crate::types::zkh_coeffs(pk.n as int, pk.m as int), x),
                    crate::prover::fs_sum_at(r1, r2, eta.val(), x),
                ),
                fmul(fpow(eta.val(), 9), poly_eval(rf, x)),
            ) == 0
        }),
{
    let x = pk.k_domain.point(i);
    let b = beta.val();
    let e = eta.val();
    let r = r1.polynomials[0].eval(x);
    let c = r1.polynomials[1].eval(x);
    let delta = pk.d_domain.point(1);
    let delta_t = fpow(delta, pk.t as nat);
    let f = seq![
        r2.polynomials[0].eval(x),
        r2.polynomials[1].eval(x),
        r2.polynomials[2].eval(x),
        r2.polynomials[3].eval(x),
        r2.polynomials[4].eval(x),
    ];
    law_rational_identities_on_k(pk, r1, beta, r2, i);
    law_square_roots_on_k(pk, rows, cols, stmt, r1, i);
    law_rowtilde_matches_row_on_k(pk, rows, cols, stmt, r1, i);
    // canonical values
    lemma_ops_canonical(b, r);
    lemma_ops_canonical(b, c);
    lemma_ops_canonical(b, fmul(c, finv(fmul(delta, r))));
    lemma_ops_canonical(b, fmul(c, finv(delta_t)));
    lemma_ops_canonical(delta, r);
    lemma_ops_canonical(1, 1);
    assert(r2.polynomials[2].eval(x) == r2.f_evals[2]@[i].val());
    assert(r2.polynomials[3].eval(x) == r2.f_evals[3]@[i].val());
    assert(r == r1.r_evals@[i].val());
    assert(c == r1.c_evals@[i].val());
    assert(crate::prover::round_two_inverses(b, delta, delta_t, r, c, pk.h_poly.eval(x)));
    // Δ·R and Δᵗ are non-zero powers of the generator of D.
    let n2 = (2 * pk.n) as nat;
    let g = crate::poly::domain_generator(n2);
    assert(delta == fpow(g, 1));
    crate::field::lemma_fpow_multiplies(g, 1, n2);
    crate::field::lemma_fpow_adds(g, 1, rows[i] as nat);
    assert(r == fpow(g, rows[i] as nat));
    lemma_fpow_nonzero(g, (1 + rows[i]) as nat, n2);
    crate::field::lemma_fpow_multiplies(g, 1, pk.t as nat);
    lemma_fpow_nonzero(g, pk.t as nat, n2);
    lemma_fpow_canonical(g, pk.t as nat);
    lemma_fpow_canonical(g, 1);
    // η², η³: clear the denominators Δ·R and Δᵗ
    let f3 = r2.polynomials[2].eval(x);
    let f4 = r2.polynomials[3].eval(x);
    assert(0 <= f3 < modulus()) by {
        assert(r2.f_evals[2]@[i].wf());
    }
    assert(0 <= f4 < modulus()) by {
        assert(r2.f_evals[3]@[i].wf());
    }
    assert(0 <= b < modulus());
    assert(0 <= c < modulus()) by {
        assert(r1.c_evals@[i].wf());
    }
    vstd::arithmetic::div_mod::lemma_small_mod(1, modulus() as nat);
    lemma_clear_denominator(f3, b, c, fmul(delta, r));
    lemma_clear_denominator(f4, b, c, delta_t);
    // η⁹: ΣFⱼ + η·S = R_F on K
    lemma_k_point_root(pk, i);
    lemma_fsub_self(1);
    let rfx = poly_eval(rf, x);
    crate::field::lemma_poly_eval_canonical(rf, x);
    crate::field::lemma_zero_facts(rfx);
    crate::field::lemma_zero_facts(poly_eval(qf, x));
    lemma_fmul_comm(poly_eval(qf, x), 0);
    assert(poly_eval(fsc, x) == crate::prover::fs_sum_at(r1, r2, e, x));
    assert(poly_eval(fsc, x) == fadd(
        fmul(poly_eval(qf, x), fsub(fpow(x, pk.m as nat), 1)),
        rfx,
    ));
    assert(fsub(fpow(x, pk.m as nat), 1) == 0);
    assert(fmul(poly_eval(qf, x), 0) == 0);
    assert(crate::prover::fs_sum_at(r1, r2, e, x) == rfx);
    // every η-term but the last is zero
    crate::field::lemma_zero_facts(0);
    assert forall|j: nat| #[trigger] fmul(fpow(e, j), 0) == 0 by {
        lemma_fpow_canonical(e, j);
        crate::field::lemma_zero_facts(fpow(e, j));
    }
    lemma_fpow_canonical(e, 9);
    lemma_ops_canonical(fpow(e, 9), rfx);
    crate::field::lemma_zero_facts(fmul(fpow(e, 9), rfx));
}

// ---------------------------------------------------------------------------
// The batched opening at α
// ---------------------------------------------------------------------------

/// At α the batched opening numerator of round 5 is δ⁴·Lin(α): the first
/// four terms vanish because round 4's scalars are h, R, C and row̃ at α.
/// With round 5's quotient Q this gives, for every x,
/// numerator(x) = Q(x)·(x − α) + δ⁴·Lin(α).
pub proof fn law_opening_at_alpha(
    pk: &PfrPublicKey,
    r1: &Round1State,
    r2: &Round2State,
    r3: &crate::prover::Round3State,
    r4: &crate::prover::Round4State,
    delta: int,
)
    requires
        r4.h_alpha.val() == pk.h_poly.eval(r4.alpha.val()),
        r4.r_alpha.val() == r1.polynomials[0].eval(r4.alpha.val()),
        r4.c_alpha.val() == r1.polynomials[1].eval(r4.alpha.val()),
        r4.row_alpha.val() == r1.polynomials[7].eval(r4.alpha.val()),
    ensures
        crate::prover::opening_numerator_at(pk, r1, r2, r3, r4, delta, r4.alpha.val()) == fmul(
            fpow(delta, 4),
            crate::prover::lin_at(pk, r1, r2, r3, r4, r4.alpha.val()),
        ),
{
    let a = r4.alpha.val();
    reveal(crate::prover::opening_numerator_at);
    lemma_fsub_self(r4.h_alpha.val());
    lemma_fsub_self(r4.r_alpha.val());
    lemma_fsub_self(r4.c_alpha.val());
    lemma_fsub_self(r4.row_alpha.val());
    crate::field::lemma_zero_facts(0);
    lemma_fpow_canonical(delta, 1);
    lemma_fpow_canonical(delta, 2);
    lemma_fpow_canonical(delta, 3);
    crate::field::lemma_zero_facts(fpow(delta, 1));
    crate::field::lemma_zero_facts(fpow(delta, 2));
    crate::field::lemma_zero_facts(fpow(delta, 3));
    let l = fmul(fpow(delta, 4), crate::prover::lin_at(pk, r1, r2, r3, r4, a));
    lemma_ops_canonical(fpow(delta, 4), crate::prover::lin_at(pk, r1, r2, r3, r4, a));
    crate::field::lemma_zero_facts(l);
}

// ---------------------------------------------------------------------------
// The remainder R_F of round 3 has no constant term
// ---------------------------------------------------------------------------

/// A sum of terms congruent modulo `p` is congruent modulo `p`.
pub(crate) proof fn lemma_jsum_congruent(k: int, a: spec_fn(int) -> int, b: spec_fn(int) -> int)
    requires
        forall|i: int| 0 <= i < k ==> #[trigger] a(i) % modulus() == b(i) % modulus(),
    ensures
        jsum(k, a) % modulus() == jsum(k, b) % modulus(),
    decreases k,
{
    if k > 0 {
        lemma_jsum_congruent(k - 1, a, b);
        vstd::arithmetic::div_mod::lemma_add_mod_noop(jsum(k - 1, a), a(k - 1), modulus());
        vstd::arithmetic::div_mod::lemma_add_mod_noop(jsum(k - 1, b), b(k - 1), modulus());
    }
}

/// `Σ c·a(i) = c·Σ a(i)`.
pub(crate) proof fn lemma_jsum_scale(k: int, c: int, a: spec_fn(int) -> int, b: spec_fn(int) -> int)
    requires
        forall|i: int| 0 <= i < k ==> #[trigger] b(i) == c * a(i),
    ensures
        jsum(k, b) == c * jsum(k, a),
    decreases k,
{
    if k > 0 {
        lemma_jsum_scale(k - 1, c, a, b);
        let s = jsum(k - 1, a);
        assert(c * s + c * a(k - 1) == c * (s + a(k - 1))) by (nonlinear_arith);
    } else {
        assert(c * 0 == 0);
    }
}

/// `Σ_{i<k} b^i` as a `jsum` is the integer geometric sum.
pub(crate) proof fn lemma_jsum_int_geom(k: int, b: int, a: spec_fn(int) -> int)
    requires
        k >= 0,
        forall|i: int| 0 <= i < k ==> #[trigger] a(i) == vstd::arithmetic::power::pow(b, i as nat),
    ensures
        jsum(k, a) == int_geom(b, k),
    decreases k,
{
    if k > 0 {
        lemma_jsum_int_geom(k - 1, b, a);
    }
}

/// `Σ_{i<m} (κ^i)^a` is `m` for `a = 0` and a multiple of `p` for
/// `0 < a < m`.
proof fn lemma_k_power_sum(pk: &PfrPublicKey, a: nat)
    requires
        pk.wf(),
        pk.m >= 2,
        a < pk.m,
    ensures
        a == 0 ==> jsum(pk.m as int, |i: int| fpow(pk.k_domain.point(i), a)) == pk.m,
        a > 0 ==> jsum(pk.m as int, |i: int| fpow(pk.k_domain.point(i), a)) % modulus() == 0,
{
    let p = modulus();
    let m = pk.m as int;
    let g = crate::poly::domain_generator(pk.m as nat);
    let kappa = pk.k_domain.point(1);
    let b = fpow(kappa, a);
    let f = |i: int| fpow(pk.k_domain.point(i), a);
    if a == 0 {
        let one = |i: int| 1int;
        assert forall|i: int| 0 <= i < m implies #[trigger] f(i) == one(i) by {
            vstd::arithmetic::power::lemma_pow0(pk.k_domain.point(i));
            vstd::arithmetic::div_mod::lemma_small_mod(1, p as nat);
        }
        lemma_jsum_ext(m, f, one);
        lemma_jsum_ones(m);
    } else {
        reveal(PfrPublicKey::k_roots);
        let pw = |i: int| vstd::arithmetic::power::pow(b, i as nat);
        assert forall|i: int| 0 <= i < m implies #[trigger] f(i) % p == pw(i) % p by {
            crate::field::lemma_fpow_multiplies(g, i as nat, a);
            crate::field::lemma_fpow_multiplies(g, 1, a);
            crate::field::lemma_fpow_multiplies(g, a, i as nat);
            vstd::arithmetic::mul::lemma_mul_is_commutative(i, a as int);
            lemma_fpow_canonical(g, (i * a) as nat);
            vstd::arithmetic::div_mod::lemma_small_mod(f(i) as nat, p as nat);
            assert(f(i) == fpow(b, i as nat));
        }
        lemma_jsum_congruent(m, f, pw);
        lemma_jsum_int_geom(m, b, pw);
        crate::field::lemma_pow2_has_inverse(pk.m as nat);
        assert(crate::poly::is_pow2(pk.m as nat));
        vstd::arithmetic::div_mod::lemma_small_mod(a, pk.m as nat);
        lemma_geom_vanishes(kappa, pk.m as nat, a);
    }
}

/// `Σ_{i<k} 1 = k`.
pub(crate) proof fn lemma_jsum_ones(k: int)
    requires
        k >= 0,
    ensures
        jsum(k, |i: int| 1int) == k,
    decreases k,
{
    if k > 0 {
        lemma_jsum_ones(k - 1);
    }
}

/// `Σ_{i<m} (κ^i)^a · c(κ^i)`.
pub open spec fn twisted_sum(pk: &PfrPublicKey, c: Seq<int>, a: nat) -> int {
    jsum(
        pk.m as int,
        |i: int| fpow(pk.k_domain.point(i), a) * poly_eval(c, pk.k_domain.point(i)),
    )
}

/// Summing a polynomial with fewer than `m` coefficients, twisted by
/// `x^a`, over K: `m·c₀` for `a = 0`, and a multiple of `p` for `a > 0`
/// while `a + len(c) ≤ m`.
proof fn lemma_twisted_sum(pk: &PfrPublicKey, c: Seq<int>, a: nat)
    requires
        pk.wf(),
        pk.m >= 2,
        a + c.len() <= pk.m,
    ensures
        twisted_sum(pk, c, a) % modulus() == (if a == 0 && c.len() > 0 {
            pk.m * c[0]
        } else {
            0
        }) % modulus(),
    decreases c.len(),
{
    let p = modulus();
    let m = pk.m as int;
    let t = |i: int| fpow(pk.k_domain.point(i), a) * poly_eval(c, pk.k_domain.point(i));
    if c.len() == 0 {
        assert forall|i: int| 0 <= i < m implies #[trigger] t(i) == 0 by {}
        lemma_jsum_zero(m, t);
    } else {
        let c0 = c[0];
        let rest = c.drop_first();
        let ga = |i: int| fpow(pk.k_domain.point(i), a);
        let u = |i: int| c0 * ga(i);
        let v = |i: int| fpow(pk.k_domain.point(i), a + 1) * poly_eval(rest, pk.k_domain.point(i));
        let w = |i: int| u(i) + v(i);
        assert forall|i: int| 0 <= i < m implies #[trigger] t(i) % p == w(i) % p by {
            let x = pk.k_domain.point(i);
            let fa = fpow(x, a);
            let e = poly_eval(rest, x);
            assert(poly_eval(c, x) == (c0 + x * e) % p);
            vstd::arithmetic::div_mod::lemma_mul_mod_noop_right(fa, c0 + x * e, p);
            assert(fa * (c0 + x * e) == c0 * fa + (fa * x) * e) by (nonlinear_arith);
            crate::field::lemma_fpow_step(x, a);
            reveal(fmul);
            vstd::arithmetic::div_mod::lemma_mul_mod_noop_left(fa * x, e, p);
            vstd::arithmetic::div_mod::lemma_add_mod_noop(c0 * fa, (fa * x) * e, p);
            vstd::arithmetic::div_mod::lemma_add_mod_noop(c0 * fa, fpow(x, a + 1) * e, p);
        }
        lemma_jsum_congruent(m, t, w);
        lemma_jsum_add(m, u, v, w);
        lemma_jsum_scale(m, c0, ga, u);
        lemma_twisted_sum(pk, rest, a + 1);
        assert(jsum(m, v) == twisted_sum(pk, rest, a + 1));
        lemma_k_power_sum(pk, a);
        let gs = jsum(m, ga);
        vstd::arithmetic::div_mod::lemma_add_mod_noop(c0 * gs, jsum(m, v), p);
        if a > 0 {
            vstd::arithmetic::div_mod::lemma_mul_mod_noop_right(c0, gs, p);
            assert(c0 * 0 == 0);
        } else {
            assert(c0 * gs == m * c0) by (nonlinear_arith)
                requires
                    gs == m,
            ;
        }
        vstd::arithmetic::div_mod::lemma_small_mod(0, p as nat);
    }
}

/// `Σ_{i<k} (F₁ + … + F₅)(κ^i)` as a `jsum`.
proof fn lemma_f_sum_jsum(pk: &PfrPublicKey, r2: &Round2State, k: int)
    requires
        k >= 0,
    ensures
        f_sum_on_k(pk, r2, k) == jsum(
            k,
            |i: int|
                r2.polynomials[0].eval(pk.k_domain.point(i)) + r2.polynomials[1].eval(
                    pk.k_domain.point(i),
                ) + r2.polynomials[2].eval(pk.k_domain.point(i)) + r2.polynomials[3].eval(
                    pk.k_domain.point(i),
                ) + r2.polynomials[4].eval(pk.k_domain.point(i)),
        ),
    decreases k,
{
    if k > 0 {
        lemma_f_sum_jsum(pk, r2, k - 1);
    }
}

/// ΣFⱼ + η·S at a point is, modulo `p`, the plain sum of the values.
/// `(x mod p) mod p = x mod p`.
proof fn lemma_mod_twice(x: int)
    ensures
        (x % modulus()) % modulus() == x % modulus(),
{
    vstd::arithmetic::div_mod::lemma_mod_bound(x, modulus());
    vstd::arithmetic::div_mod::lemma_small_mod((x % modulus()) as nat, modulus() as nat);
}

#[verifier::spinoff_prover]
proof fn lemma_fs_sum_congruent(r1: &Round1State, r2: &Round2State, eta: int, x: int)
    ensures
        crate::prover::fs_sum_at(r1, r2, eta, x) == (r2.polynomials[0].eval(x) + r2.polynomials[1].eval(
            x,
        ) + r2.polynomials[2].eval(x) + r2.polynomials[3].eval(x) + r2.polynomials[4].eval(x) + eta
            * r1.polynomials[3].eval(x)) % modulus(),
{
    let p = modulus();
    let f0 = r2.polynomials[0].eval(x);
    let f1 = r2.polynomials[1].eval(x);
    let f2 = r2.polynomials[2].eval(x);
    let f3 = r2.polynomials[3].eval(x);
    let f4 = r2.polynomials[4].eval(x);
    let es = eta * r1.polynomials[3].eval(x);
    let a = fadd(f0, f1);
    let b = fadd(f2, f3);
    let c = fadd(a, b);
    let d = fadd(c, f4);
    assert(c == (f0 + f1 + f2 + f3) % p) by {
        reveal(fadd);
        vstd::arithmetic::div_mod::lemma_add_mod_noop(f0 + f1, f2 + f3, p);
    }
    assert(d == (f0 + f1 + f2 + f3 + f4) % p) by {
        reveal(fadd);
        vstd::arithmetic::div_mod::lemma_add_mod_noop(f0 + f1 + f2 + f3, f4, p);
        vstd::arithmetic::div_mod::lemma_add_mod_noop(c, f4, p);
        lemma_mod_twice(f0 + f1 + f2 + f3);
    }
    assert(fadd(d, fmul(eta, r1.polynomials[3].eval(x))) == (f0 + f1 + f2 + f3 + f4 + es) % p) by {
        reveal(fadd);
        reveal(fmul);
        vstd::arithmetic::div_mod::lemma_add_mod_noop(f0 + f1 + f2 + f3 + f4, es, p);
        vstd::arithmetic::div_mod::lemma_add_mod_noop(d, es % p, p);
        lemma_mod_twice(f0 + f1 + f2 + f3 + f4);
        lemma_mod_twice(es);
    }
}

/// After the lookup sum-check, the remainder R_F of ΣFⱼ + η·S modulo z_K has
/// no constant term: R_F(0) = 0, so R_F = X·(R_F/X) and round 3's R* carries
/// all of it.  Over K, Σ_i R_F(κ^i) = m·R_F(0), while Σ_i ΣFⱼ(κ^i) = 0 by the
/// sum-check and Σ_i S(κ^i) = r_S·Σ_i κ^i = 0.  (For m = 1, Σ_i S(κ^i) = r_S
/// and the remainder is η·r_S, so `m ≥ 2` is required.)
#[verifier::spinoff_prover]
#[verifier::rlimit(30)]
pub proof fn law_remainder_has_no_constant_term(
    pk: &PfrPublicKey,
    rows: Seq<usize>,
    cols: Seq<usize>,
    stmt: &PfrStatement,
    r1: &Round1State,
    beta: Scalar,
    r2: &Round2State,
    eta: int,
    r3: &crate::prover::Round3State,
    fsc: Seq<int>,
    qf: Seq<int>,
    rf: Seq<int>,
)
    requires
        pk.wf(),
        pk.m >= 2,
        crate::types::valid_pairs(rows, cols, pk.n as int, pk.t as int, pk.m as int),
        round_one_spec(pk, rows, cols, stmt, r1),
        beta.wf(),
        round_two_spec(pk, r1, beta, r2),
        crate::prover::round_three_from(pk, r1, r2, eta, r3, fsc, qf, rf),
    ensures
        poly_eval(rf, 0) == 0,
{
    let p = modulus();
    let m = pk.m as int;
    let kp = |i: int| pk.k_domain.point(i);
    let rs = r1.r_s.val();
    // R_F(κ^i) = (ΣFⱼ + η·S)(κ^i), and S(κ^i) = r_S·κ^i.
    let fsv = |i: int| crate::prover::fs_sum_at(r1, r2, eta, kp(i));
    let rfv = |i: int| poly_eval(rf, kp(i));
    let fraw = |i: int|
        r2.polynomials[0].eval(kp(i)) + r2.polynomials[1].eval(kp(i)) + r2.polynomials[2].eval(kp(i))
            + r2.polynomials[3].eval(kp(i)) + r2.polynomials[4].eval(kp(i));
    let sv = |i: int| (eta * rs) * fpow(kp(i), 1);
    let w = |i: int| fraw(i) + sv(i);
    let one = |i: int| fpow(kp(i), 1);
    assert forall|i: int| 0 <= i < m implies #[trigger] rfv(i) == fsv(i) && fsv(i) % p == w(i) % p by {
        let x = kp(i);
        lemma_k_point_root(pk, i);
        lemma_fsub_self(1);
        let q = poly_eval(qf, x);
        crate::field::lemma_poly_eval_canonical(qf, x);
        crate::field::lemma_poly_eval_canonical(rf, x);
        crate::field::lemma_zero_facts(q);
        crate::field::lemma_zero_facts(poly_eval(rf, x));
        assert(poly_eval(fsc, x) == fadd(fmul(q, fsub(fpow(x, m as nat), 1)), poly_eval(rf, x)));
        // S(x) = r_S·x on K
        let rho = r1.rho_s.val();
        crate::field::lemma_zero_facts(rho);
        lemma_ops_canonical(rs, x);
        crate::field::lemma_zero_facts(fmul(rs, x));
        assert(r1.polynomials[3].eval(x) == fmul(rs, x));
        lemma_fs_sum_congruent(r1, r2, eta, x);
        lemma_fpow_canonical(pk.k_domain.point(0), 0);
        crate::poly::lemma_domain_facts(pk.m as nat, i as nat);
        lemma_fpow_canonical(crate::poly::domain_generator(pk.m as nat), i as nat);
        vstd::arithmetic::power::lemma_pow1(x);
        vstd::arithmetic::div_mod::lemma_small_mod(x as nat, p as nat);
        assert(fpow(x, 1) == x);
        reveal(fmul);
        let fs = r2.polynomials[0].eval(x) + r2.polynomials[1].eval(x) + r2.polynomials[2].eval(x)
            + r2.polynomials[3].eval(x) + r2.polynomials[4].eval(x);
        vstd::arithmetic::div_mod::lemma_mul_mod_noop_right(eta, rs * x, p);
        vstd::arithmetic::div_mod::lemma_add_mod_noop(fs, eta * ((rs * x) % p), p);
        vstd::arithmetic::div_mod::lemma_add_mod_noop(fs, eta * (rs * x), p);
        assert(eta * (rs * x) == (eta * rs) * x) by (nonlinear_arith);
    }
    // Σ R_F(κ^i) ≡ m·R_F(0)
    lemma_twisted_sum(pk, rf, 0);
    let tz = |i: int| fpow(kp(i), 0) * poly_eval(rf, kp(i));
    assert forall|i: int| 0 <= i < m implies #[trigger] tz(i) == rfv(i) by {
        vstd::arithmetic::power::lemma_pow0(kp(i));
        vstd::arithmetic::div_mod::lemma_small_mod(1, p as nat);
        assert(fpow(kp(i), 0) == 1);
        assert(1 * poly_eval(rf, kp(i)) == poly_eval(rf, kp(i)));
    }
    assert forall|i: int| 0 <= i < m implies #[trigger] fsv(i) % p == w(i) % p by {
        assert(rfv(i) == fsv(i) && fsv(i) % p == w(i) % p);
    }
    lemma_jsum_ext(m, tz, rfv);
    lemma_jsum_ext(m, rfv, fsv);
    // Σ (ΣFⱼ + η·S)(κ^i) ≡ 0
    lemma_jsum_congruent(m, fsv, w);
    lemma_jsum_add(m, fraw, sv, w);
    lemma_f_sum_jsum(pk, r2, m);
    lemma_jsum_ext(m, fraw, |i: int|
        r2.polynomials[0].eval(pk.k_domain.point(i)) + r2.polynomials[1].eval(pk.k_domain.point(i))
            + r2.polynomials[2].eval(pk.k_domain.point(i)) + r2.polynomials[3].eval(
            pk.k_domain.point(i),
        ) + r2.polynomials[4].eval(pk.k_domain.point(i)));
    law_lookup_sumcheck(pk, rows, cols, stmt, r1, beta, r2);
    lemma_jsum_scale(m, eta * rs, one, sv);
    lemma_k_power_sum(pk, 1);
    let ones = jsum(m, one);
    vstd::arithmetic::div_mod::lemma_mul_mod_noop_right(eta * rs, ones, p);
    vstd::arithmetic::div_mod::lemma_add_mod_noop(jsum(m, fraw), jsum(m, sv), p);
    assert((eta * rs) * 0 == 0);
    vstd::arithmetic::div_mod::lemma_small_mod(0, p as nat);
    lemma_jsum_ext(m, one, |i: int| fpow(pk.k_domain.point(i), 1nat));
    lemma_jsum_ext(
        m,
        tz,
        |i: int| fpow(pk.k_domain.point(i), 0nat) * poly_eval(rf, pk.k_domain.point(i)),
    );
    assert(jsum(m, sv) == (eta * rs) * ones);
    assert(ones % p == 0);
    assert(jsum(m, sv) % p == 0);
    assert(f_sum_on_k(pk, r2, m) % p == 0);
    assert(jsum(m, fraw) % p == 0);
    assert(jsum(m, w) % p == 0);
    assert(jsum(m, fsv) % p == 0);
    assert(twisted_sum(pk, rf, 0) == jsum(m, tz));
    // m·R_F(0) ≡ 0 and m is invertible
    if rf.len() > 0 {
        let r0 = rf[0];
        assert((m * r0) % p == 0);
        crate::field::lemma_pow2_inverse_known(pk.m as nat);
        assert(crate::poly::valid_domain_size(pk.m as nat));
        vstd::arithmetic::div_mod::lemma_small_mod(pk.m as nat, p as nat);
        reveal(fmul);
        let fi = finv(m);
        assert((fi * m) % p == 1);
        vstd::arithmetic::div_mod::lemma_mul_mod_noop_left(fi * m, r0, p);
        assert((fi * m) * r0 == fi * (m * r0)) by (nonlinear_arith);
        vstd::arithmetic::div_mod::lemma_mul_mod_noop_right(fi, m * r0, p);
        assert(fi * 0 == 0);
        assert(1 * r0 == r0);
        assert(r0 % p == 0);
        assert(poly_eval(rf, 0) == (r0 + 0 * poly_eval(rf.drop_first(), 0)) % p);
    }
}

// ---------------------------------------------------------------------------
// The linearisation at α
// ---------------------------------------------------------------------------

/// The batched identity P of round 3 at `x`, from the polynomials' values
/// there (with z_{K∖H} as its polynomial).
pub open spec fn batched_at(pk: &PfrPublicKey, r1: &Round1State, r2: &Round2State, eta: int, x: int) -> int {
    let delta = pk.d_domain.point(1);
    crate::prover::batched_terms(
        r2.beta.val(),
        delta,
        fpow(delta, pk.t as nat),
        eta,
        r1.polynomials[0].eval(x),
        r1.polynomials[1].eval(x),
        r1.polynomials[2].eval(x),
        r1.polynomials[4].eval(x),
        r1.polynomials[5].eval(x),
        r1.polynomials[6].eval(x),
        r1.polynomials[7].eval(x),
        seq![
            r2.polynomials[0].eval(x),
            r2.polynomials[1].eval(x),
            r2.polynomials[2].eval(x),
            r2.polynomials[3].eval(x),
            r2.polynomials[4].eval(x),
        ],
        pk.h_poly.eval(x),
        poly_eval(crate::types::zkh_coeffs(pk.n as int, pk.m as int), x),
        crate::prover::fs_sum_at(r1, r2, eta, x),
    )
}

/// How far q misses being the quotient of P − η⁹·R_F by z_K at `x`:
/// `P(x) − η⁹·R_F(x) − z_K(x)·q(x)`.  Round 3 makes it 0 at the 2m points of
/// the coset on which q is interpolated.
pub open spec fn quotient_defect(
    pk: &PfrPublicKey,
    r1: &Round1State,
    r2: &Round2State,
    r3: &crate::prover::Round3State,
    rf: Seq<int>,
    x: int,
) -> int {
    let eta = r3.eta.val();
    fsub(
        fsub(batched_at(pk, r1, r2, eta, x), fmul(fpow(eta, 9), poly_eval(rf, x))),
        fmul(fsub(fpow(x, pk.m as nat), 1), r3.polynomials[1].eval(x)),
    )
}

/// `a·(b − c) = a·b − a·c`.
proof fn lemma_fmul_distrib_sub(a: int, b: int, c: int)
    ensures
        fmul(a, fsub(b, c)) == fsub(fmul(a, b), fmul(a, c)),
{
    reveal(fmul);
    reveal(fsub);
    let p = modulus();
    vstd::arithmetic::div_mod::lemma_mul_mod_noop_right(a, b - c, p);
    assert(a * (b - c) == a * b - a * c) by (nonlinear_arith);
    vstd::arithmetic::div_mod::lemma_sub_mod_noop(a * b, a * c, p);
}

/// With round 4's values the polynomials at α, the linearised identity of
/// round 5 at α is P(α).
proof fn lemma_big_lin_at_alpha(
    pk: &PfrPublicKey,
    r1: &Round1State,
    r2: &Round2State,
    r3: &crate::prover::Round3State,
    r4: &crate::prover::Round4State,
)
    requires
        r3.eta9.val() == fpow(r3.eta.val(), 9),
        r4.h_alpha.val() == pk.h_poly.eval(r4.alpha.val()),
        r4.r_alpha.val() == r1.polynomials[0].eval(r4.alpha.val()),
        r4.c_alpha.val() == r1.polynomials[1].eval(r4.alpha.val()),
        r4.row_alpha.val() == r1.polynomials[7].eval(r4.alpha.val()),
    ensures
        crate::prover::big_lin_at(pk, r1, r2, r3, r4, r4.alpha.val()) == batched_at(
            pk,
            r1,
            r2,
            r3.eta.val(),
            r4.alpha.val(),
        ),
{
    reveal(crate::prover::big_lin_at);
    let x = r4.alpha.val();
    let beta = r2.beta.val();
    let delta = pk.d_domain.point(1);
    let delta_t = fpow(delta, pk.t as nat);
    let ra = r4.r_alpha.val();
    let ca = r4.c_alpha.val();
    let ha = r4.h_alpha.val();
    let m_x = r1.polynomials[2].eval(x);
    let zkh_a = poly_eval(crate::types::zkh_coeffs(pk.n as int, pk.m as int), x);
    lemma_fmul_comm(fadd(beta, ra), r2.polynomials[0].eval(x));
    lemma_fmul_comm(fadd(beta, ca), r2.polynomials[1].eval(x));
    lemma_fmul_assoc(beta, delta, ra);
    lemma_fmul_comm(fadd(fmul(beta, fmul(delta, ra)), ca), r2.polynomials[2].eval(x));
    lemma_fmul_comm(fadd(fmul(beta, delta_t), ca), r2.polynomials[3].eval(x));
    lemma_fmul_comm(fadd(beta, ha), r2.polynomials[4].eval(x));
    lemma_fmul_comm(zkh_a, m_x);
}

/// At α the linearised identity Lin of round 5 is U(α) times the quotient
/// defect: Lin(α) = U(α)·(P(α) − η⁹·R_F(α) − z_K(α)·q(α)), for the rounds
/// that the prover runs on valid index pairs with m ≥ 2.  The sum-check
/// gives R_F(0) = 0, so η⁹·α·R*(α) is η⁹·U(α)·R_F(α).  For m ≥ 4 and β
/// keeping the denominators of eq. (8) non-zero on K, the defect is 0
/// everywhere ([`law_round_five_divides_exactly`]).
pub proof fn law_lin_at_alpha(
    pk: &PfrPublicKey,
    rows: Seq<usize>,
    cols: Seq<usize>,
    stmt: &PfrStatement,
    r1: &Round1State,
    beta: Scalar,
    r2: &Round2State,
    r3: &crate::prover::Round3State,
    r4: &crate::prover::Round4State,
    fsc: Seq<int>,
    qf: Seq<int>,
    rf: Seq<int>,
)
    requires
        pk.wf(),
        pk.m >= 2,
        crate::types::valid_pairs(rows, cols, pk.n as int, pk.t as int, pk.m as int),
        round_one_spec(pk, rows, cols, stmt, r1),
        beta.wf(),
        round_two_spec(pk, r1, beta, r2),
        r3.eta.wf(),
        r3.eta9.val() == fpow(r3.eta.val(), 9),
        r3.u_poly.cv() == crate::prover::u_coeffs(),
        crate::prover::round_three_from(pk, r1, r2, r3.eta.val(), r3, fsc, qf, rf),
        r4.alpha.wf(),
        r4.h_alpha.val() == pk.h_poly.eval(r4.alpha.val()),
        r4.r_alpha.val() == r1.polynomials[0].eval(r4.alpha.val()),
        r4.c_alpha.val() == r1.polynomials[1].eval(r4.alpha.val()),
        r4.row_alpha.val() == r1.polynomials[7].eval(r4.alpha.val()),
    ensures
        crate::prover::lin_at(pk, r1, r2, r3, r4, r4.alpha.val()) == fmul(
            r3.u_poly.eval(r4.alpha.val()),
            quotient_defect(pk, r1, r2, r3, rf, r4.alpha.val()),
        ),
{
    let p = modulus();
    let a = r4.alpha.val();
    let eta = r3.eta.val();
    let e9 = fpow(eta, 9);
    let u = r3.u_poly.eval(a);
    let zk = fsub(fpow(a, pk.m as nat), 1);
    let q = r3.polynomials[1].eval(a);
    let ox = poly_eval(crate::prover::over_x(rf), a);
    let bl = batched_at(pk, r1, r2, eta, a);
    law_remainder_has_no_constant_term(pk, rows, cols, stmt, r1, beta, r2, eta, r3, fsc, qf, rf);
    lemma_big_lin_at_alpha(pk, r1, r2, r3, r4);
    reveal(crate::prover::lin_at);
    // R_F(α) = α·(R_F/X)(α), since R_F(0) = 0.
    let rfa = poly_eval(rf, a);
    assert(rfa == fmul(a, ox)) by {
        reveal(fmul);
        if rf.len() == 0 {
            assert(a * 0 == 0);
            vstd::arithmetic::div_mod::lemma_small_mod(0, p as nat);
        } else {
            let r0 = rf[0];
            let e = poly_eval(rf.drop_first(), a);
            assert(poly_eval(rf, 0) == (r0 + 0 * poly_eval(rf.drop_first(), 0)) % p);
            assert(r0 % p == 0);
            vstd::arithmetic::div_mod::lemma_add_mod_noop(r0, a * e, p);
            vstd::arithmetic::div_mod::lemma_mod_mod(a * e, p, 1);
            vstd::arithmetic::div_mod::lemma_small_mod(0, p as nat);
            assert((a * e) % p % p == (a * e) % p) by {
                vstd::arithmetic::div_mod::lemma_mod_bound(a * e, p);
                vstd::arithmetic::div_mod::lemma_small_mod(((a * e) % p) as nat, p as nat);
            }
        }
    }
    // η⁹·α·R*(α) = U(α)·(η⁹·R_F(α))
    assert(r3.polynomials[0].eval(a) == fmul(ox, u));
    lemma_fmul_assoc(e9, a, fmul(ox, u));
    lemma_fmul_assoc(a, ox, u);
    lemma_fmul_comm(fmul(a, ox), u);
    lemma_fmul_assoc(e9, u, fmul(a, ox));
    lemma_fmul_comm(e9, u);
    lemma_fmul_assoc(u, e9, fmul(a, ox));
    assert(fmul(fmul(e9, a), r3.polynomials[0].eval(a)) == fmul(u, fmul(e9, rfa)));
    // U(α)·z_K(α)·q(α) = U(α)·(z_K(α)·q(α))
    lemma_fmul_assoc(u, zk, q);
    // distribute U(α)
    lemma_fmul_distrib_sub(u, fsub(bl, fmul(e9, rfa)), fmul(zk, q));
    lemma_fmul_distrib_sub(u, bl, fmul(e9, rfa));
}

/// Round 3 interpolates q where it is the quotient: at each of the 2m
/// points of the coset, the quotient defect P − η⁹·R_F − z_K·q is 0.
pub proof fn law_defect_vanishes_on_coset(
    pk: &PfrPublicKey,
    rows: Seq<usize>,
    cols: Seq<usize>,
    stmt: &PfrStatement,
    r1: &Round1State,
    beta: Scalar,
    r2: &Round2State,
    r3: &crate::prover::Round3State,
    fsc: Seq<int>,
    qf: Seq<int>,
    rf: Seq<int>,
    i: int,
)
    requires
        pk.wf(),
        pk.m >= 2,
        crate::prover::statement_interpolates(
            pk,
            stmt,
            omega_powers_at(pk, rows),
            omega_powers_at(pk, cols),
        ),
        round_one_spec(pk, rows, cols, stmt, r1),
        beta.wf(),
        round_two_spec(pk, r1, beta, r2),
        crate::prover::round_three_from(pk, r1, r2, r3.eta.val(), r3, fsc, qf, rf),
        0 <= i < 2 * pk.m,
    ensures
        quotient_defect(pk, r1, r2, r3, rf, crate::poly::coset_point((2 * pk.m) as nat, i as nat)) == 0,
{
    let m2 = (2 * pk.m) as nat;
    let x = crate::poly::coset_point(m2, i as nat);
    let eta = r3.eta.val();
    assert(crate::poly::truncated(fsc, m2) == fsc);
    assert forall|j: int| 0 <= j < 8 && j != 3 implies #[trigger] r1.coset_evals[j]@[i].val()
        == r1.polynomials[j].eval(x) by {
        assert(crate::prover::coset_values_of(r1.polynomials[j], r1.coset_evals[j]@, pk.m as nat));
        assert(crate::poly::truncated(r1.polynomials[j].cv(), m2) == r1.polynomials[j].cv());
    }
    assert forall|j: int| 0 <= j < 5 implies #[trigger] r2.f_coset_evals[j]@[i].val()
        == r2.polynomials[j].eval(x) by {
        assert(crate::prover::coset_values_of(r2.polynomials[j], r2.f_coset_evals[j]@, pk.m as nat));
        assert(crate::poly::truncated(r2.polynomials[j].cv(), m2) == r2.polynomials[j].cv());
    }
    assert(r1.coset_evals[0]@[i].val() == r1.polynomials[0].eval(x));
    assert(r1.coset_evals[1]@[i].val() == r1.polynomials[1].eval(x));
    assert(r1.coset_evals[2]@[i].val() == r1.polynomials[2].eval(x));
    assert(r1.coset_evals[4]@[i].val() == r1.polynomials[4].eval(x));
    assert(r1.coset_evals[5]@[i].val() == r1.polynomials[5].eval(x));
    assert(r1.coset_evals[6]@[i].val() == r1.polynomials[6].eval(x));
    assert(r1.coset_evals[7]@[i].val() == r1.polynomials[7].eval(x));
    assert(r2.f_coset_evals[0]@[i].val() == r2.polynomials[0].eval(x));
    assert(r2.f_coset_evals[1]@[i].val() == r2.polynomials[1].eval(x));
    assert(r2.f_coset_evals[2]@[i].val() == r2.polynomials[2].eval(x));
    assert(r2.f_coset_evals[3]@[i].val() == r2.polynomials[3].eval(x));
    assert(r2.f_coset_evals[4]@[i].val() == r2.polynomials[4].eval(x));
    assert(crate::prover::big_sum_on_coset(pk, r1, r2, eta, poly_eval(fsc, x), i) == batched_at(
        pk,
        r1,
        r2,
        eta,
        x,
    ));
    let q = r3.polynomials[1].eval(x);
    let z = fsub(fpow(x, pk.m as nat), 1);
    lemma_fmul_comm(q, z);
    lemma_fsub_self(fmul(z, q));
}


// ---------------------------------------------------------------------------
// Round five divides exactly
// ---------------------------------------------------------------------------

/// The batched identity P of [`crate::prover::batched_terms`] as a
/// polynomial, from the coefficients of R, C, m, row, col, rowcol, row̃,
/// F₁..F₅, h, z_{K∖H} and ΣFⱼ + η·S.
pub open spec fn batched_terms_poly(
    beta: int,
    delta: int,
    delta_t: int,
    eta: int,
    r: Seq<int>,
    c: Seq<int>,
    m: Seq<int>,
    row: Seq<int>,
    col: Seq<int>,
    rc: Seq<int>,
    rt: Seq<int>,
    f: Seq<Seq<int>>,
    h: Seq<int>,
    zkh: Seq<int>,
    fss: Seq<int>,
) -> Seq<int> {
    let one = pconst(1);
    let s0 = psub(pmul(f[0], padd(pconst(beta), r)), one);
    let s1 = padd(s0, pscale(fpow(eta, 1), psub(pmul(f[1], padd(pconst(beta), c)), one)));
    let dr = pscale(delta, r);
    let s2 = padd(s1, pscale(fpow(eta, 2), psub(pmul(f[2], padd(pscale(beta, dr), c)), dr)));
    let s3 = padd(
        s2,
        pscale(
            fpow(eta, 3),
            psub(pmul(f[3], padd(pconst(fmul(beta, delta_t)), c)), pconst(delta_t)),
        ),
    );
    let s4 = padd(
        s3,
        pscale(fpow(eta, 4), padd(pmul(f[4], padd(pconst(beta), h)), pmul(m, zkh))),
    );
    let s5 = padd(s4, pscale(fpow(eta, 5), psub(pmul(r, r), row)));
    let s6 = padd(s5, pscale(fpow(eta, 6), psub(pmul(c, c), col)));
    let s7 = padd(s6, pscale(fpow(eta, 7), psub(rc, pmul(rt, col))));
    let s8 = padd(s7, pscale(fpow(eta, 8), psub(rt, row)));
    padd(s8, pscale(fpow(eta, 9), fss))
}

/// The coefficients of ΣFⱼ + η·S.
pub open spec fn fs_sum_poly(r1: &Round1State, r2: &Round2State, eta: int) -> Seq<int> {
    padd(
        padd(
            padd(
                padd(r2.polynomials[0].cv(), r2.polynomials[1].cv()),
                padd(r2.polynomials[2].cv(), r2.polynomials[3].cv()),
            ),
            r2.polynomials[4].cv(),
        ),
        pscale(eta, r1.polynomials[3].cv()),
    )
}

/// The coefficients of P − η⁹·R_F, whose values are those of
/// [`batched_at`] less η⁹·R_F.
pub open spec fn reduced_batched_poly(
    pk: &PfrPublicKey,
    r1: &Round1State,
    r2: &Round2State,
    eta: int,
    rf: Seq<int>,
) -> Seq<int> {
    let delta = pk.d_domain.point(1);
    psub(
        batched_terms_poly(
            r2.beta.val(),
            delta,
            fpow(delta, pk.t as nat),
            eta,
            r1.polynomials[0].cv(),
            r1.polynomials[1].cv(),
            r1.polynomials[2].cv(),
            r1.polynomials[4].cv(),
            r1.polynomials[5].cv(),
            r1.polynomials[6].cv(),
            r1.polynomials[7].cv(),
            seq![
                r2.polynomials[0].cv(),
                r2.polynomials[1].cv(),
                r2.polynomials[2].cv(),
                r2.polynomials[3].cv(),
                r2.polynomials[4].cv(),
            ],
            pk.h_poly.cv(),
            crate::types::zkh_coeffs(pk.n as int, pk.m as int),
            fs_sum_poly(r1, r2, eta),
        ),
        pscale(fpow(eta, 9), rf),
    )
}

/// The field operations on values, for all coefficient sequences.
proof fn lemma_poly_eval_ops_all()
    ensures
        forall|a: Seq<int>, b: Seq<int>, x: int| #[trigger]
            poly_eval(padd(a, b), x) == fadd(poly_eval(a, x), poly_eval(b, x)),
        forall|s: int, a: Seq<int>, x: int| #[trigger]
            poly_eval(pscale(s, a), x) == fmul(s, poly_eval(a, x)),
        forall|a: Seq<int>, b: Seq<int>, x: int| #[trigger]
            poly_eval(psub(a, b), x) == fsub(poly_eval(a, x), poly_eval(b, x)),
        forall|a: Seq<int>, b: Seq<int>, x: int| #[trigger]
            poly_eval(pmul(a, b), x) == fmul(poly_eval(a, x), poly_eval(b, x)),
        forall|v: int, x: int| #[trigger] poly_eval(pconst(v), x) == v % modulus(),
{
    assert forall|a: Seq<int>, b: Seq<int>, x: int| #[trigger]
        poly_eval(padd(a, b), x) == fadd(poly_eval(a, x), poly_eval(b, x)) by {
        lemma_poly_eval_ops(a, b, 0, 0, x);
    }
    assert forall|s: int, a: Seq<int>, x: int| #[trigger]
        poly_eval(pscale(s, a), x) == fmul(s, poly_eval(a, x)) by {
        lemma_poly_eval_ops(a, a, s, 0, x);
    }
    assert forall|a: Seq<int>, b: Seq<int>, x: int| #[trigger]
        poly_eval(psub(a, b), x) == fsub(poly_eval(a, x), poly_eval(b, x)) by {
        lemma_poly_eval_ops(a, b, 0, 0, x);
    }
    assert forall|a: Seq<int>, b: Seq<int>, x: int| #[trigger]
        poly_eval(pmul(a, b), x) == fmul(poly_eval(a, x), poly_eval(b, x)) by {
        lemma_poly_eval_ops(a, b, 0, 0, x);
    }
    assert forall|v: int, x: int| #[trigger] poly_eval(pconst(v), x) == v % modulus() by {
        lemma_poly_eval_ops(seq![], seq![], 0, v, x);
    }
}

/// The values of P − η⁹·R_F are those of the batched identity less η⁹·R_F.
proof fn lemma_reduced_batched_eval(
    pk: &PfrPublicKey,
    r1: &Round1State,
    r2: &Round2State,
    eta: int,
    rf: Seq<int>,
    x: int,
)
    requires
        r2.beta.wf(),
        0 <= eta < modulus(),
    ensures
        poly_eval(reduced_batched_poly(pk, r1, r2, eta, rf), x) == fsub(
            batched_at(pk, r1, r2, eta, x),
            fmul(fpow(eta, 9), poly_eval(rf, x)),
        ),
{
    let p = modulus();
    let beta = r2.beta.val();
    let delta = pk.d_domain.point(1);
    let delta_t = fpow(delta, pk.t as nat);
    lemma_poly_eval_ops_all();
    lemma_fpow_canonical(crate::poly::domain_generator((pk.d_domain.size) as nat), 1);
    lemma_fpow_canonical(delta, pk.t as nat);
    lemma_ops_canonical(beta, delta_t);
    vstd::arithmetic::div_mod::lemma_small_mod(beta as nat, p as nat);
    vstd::arithmetic::div_mod::lemma_small_mod(delta_t as nat, p as nat);
    vstd::arithmetic::div_mod::lemma_small_mod(fmul(beta, delta_t) as nat, p as nat);
    vstd::arithmetic::div_mod::lemma_small_mod(1, p as nat);
    let f = seq![
        r2.polynomials[0].cv(),
        r2.polynomials[1].cv(),
        r2.polynomials[2].cv(),
        r2.polynomials[3].cv(),
        r2.polynomials[4].cv(),
    ];
    assert(poly_eval(fs_sum_poly(r1, r2, eta), x) == crate::prover::fs_sum_at(r1, r2, eta, x));
    assert(f[0] == r2.polynomials[0].cv() && f[1] == r2.polynomials[1].cv() && f[2]
        == r2.polynomials[2].cv() && f[3] == r2.polynomials[3].cv() && f[4]
        == r2.polynomials[4].cv());
}

/// P − η⁹·R_F has at most `2m + 3 ≤ 3m` coefficients for `m ≥ 4`.
proof fn lemma_reduced_batched_len(
    pk: &PfrPublicKey,
    rows: Seq<usize>,
    cols: Seq<usize>,
    stmt: &PfrStatement,
    r1: &Round1State,
    beta: Scalar,
    r2: &Round2State,
    eta: int,
    rf: Seq<int>,
)
    requires
        pk.wf(),
        pk.m >= 4,
        crate::prover::statement_interpolates(
            pk,
            stmt,
            omega_powers_at(pk, rows),
            omega_powers_at(pk, cols),
        ),
        round_one_spec(pk, rows, cols, stmt, r1),
        round_two_spec(pk, r1, beta, r2),
        rf.len() <= pk.m,
    ensures
        reduced_batched_poly(pk, r1, r2, eta, rf).len() <= 3 * pk.m,
{
    let m = pk.m as nat;
    let n = pk.n as nat;
    let u = m + 2;
    let big = 2 * m + 3;
    let r = r1.polynomials[0].cv();
    let c = r1.polynomials[1].cv();
    let mp = r1.polynomials[2].cv();
    let row = r1.polynomials[4].cv();
    let col = r1.polynomials[5].cv();
    let rc = r1.polynomials[6].cv();
    let rt = r1.polynomials[7].cv();
    let h = pk.h_poly.cv();
    let zkh = crate::types::zkh_coeffs(pk.n as int, pk.m as int);
    let b = r2.beta.val();
    let delta = pk.d_domain.point(1);
    let delta_t = fpow(delta, pk.t as nat);
    assert(r2.polynomials[0].len() <= u);
    assert(r2.polynomials[1].len() <= u);
    assert(r2.polynomials[2].len() <= u);
    assert(r2.polynomials[3].len() <= u);
    assert(r2.polynomials[4].len() <= u);
    assert(row.len() <= m && col.len() <= m && rc.len() <= m);
    // z_{K∖H} has m − n + 1 coefficients
    assert(zkh.len() == m - n + 1) by {
        vstd::arithmetic::div_mod::lemma_fundamental_div_mod(m as int, n as int);
        let k = (m / n) as int;
        assert((k - 1) * n + 1 == m - n + 1) by (nonlinear_arith)
            requires
                m == n * k,
        ;
    }
    crate::polyalg::lemma_pmul_len(r2.polynomials[0].cv(), padd(pconst(b), r), u, u);
    crate::polyalg::lemma_pmul_len(r2.polynomials[1].cv(), padd(pconst(b), c), u, u);
    crate::polyalg::lemma_pmul_len(
        r2.polynomials[2].cv(),
        padd(pscale(b, pscale(delta, r)), c),
        u,
        u,
    );
    crate::polyalg::lemma_pmul_len(
        r2.polynomials[3].cv(),
        padd(pconst(fmul(b, delta_t)), c),
        u,
        u,
    );
    crate::polyalg::lemma_pmul_len(r2.polynomials[4].cv(), padd(pconst(b), h), u, m);
    crate::polyalg::lemma_pmul_len(mp, zkh, n + 1, (m - n + 1) as nat);
    crate::polyalg::lemma_pmul_len(r, r, u, u);
    crate::polyalg::lemma_pmul_len(c, c, u, u);
    crate::polyalg::lemma_pmul_len(rt, col, u, m);
    assert(fs_sum_poly(r1, r2, eta).len() <= u);
    assert(big <= 3 * m);
}

/// P − η⁹·R_F is z_K times its quotient by z_K, which has at most 2m
/// coefficients: it vanishes on K, so its remainder, of at most m
/// coefficients, vanishes on the m points of K and is 0.
#[verifier::spinoff_prover]
proof fn lemma_reduced_is_multiple_of_zk(
    pk: &PfrPublicKey,
    rows: Seq<usize>,
    cols: Seq<usize>,
    stmt: &PfrStatement,
    r1: &Round1State,
    beta: Scalar,
    r2: &Round2State,
    r3: &crate::prover::Round3State,
    fsc: Seq<int>,
    qf: Seq<int>,
    rf: Seq<int>,
)
    requires
        pk.wf(),
        pk.m >= 4,
        crate::prover::statement_interpolates(
            pk,
            stmt,
            omega_powers_at(pk, rows),
            omega_powers_at(pk, cols),
        ),
        round_one_spec(pk, rows, cols, stmt, r1),
        beta.wf(),
        round_two_spec(pk, r1, beta, r2),
        forall|i: int| 0 <= i < pk.m ==> #[trigger] denominators_nonzero(pk, r1, beta.val(), i),
        r3.eta.wf(),
        crate::prover::round_three_from(pk, r1, r2, r3.eta.val(), r3, fsc, qf, rf),
    ensures
        ({
            let e = reduced_batched_poly(pk, r1, r2, r3.eta.val(), rf);
            let t = crate::polyalg::zdiv(e, pk.m as nat).0;
            &&& t.len() <= 2 * pk.m
            &&& forall|x: int|
                #[trigger] poly_eval(e, x) == fmul(poly_eval(t, x), fsub(fpow(x, pk.m as nat), 1))
        }),
{
    let m = pk.m as nat;
    let eta = r3.eta.val();
    let e = reduced_batched_poly(pk, r1, r2, eta, rf);
    assert forall|x: int| #[trigger] poly_eval(e, x) == fsub(
        batched_at(pk, r1, r2, eta, x),
        fmul(fpow(eta, 9), poly_eval(rf, x)),
    ) by {
        lemma_reduced_batched_eval(pk, r1, r2, eta, rf, x);
    }
    lemma_reduced_batched_len(pk, rows, cols, stmt, r1, beta, r2, eta, rf);
    let (t, rem) = crate::polyalg::zdiv(e, m);
    crate::polyalg::lemma_zdiv(e, m, 0);
    let kw = pk.k_domain.point(1);
    crate::poly::lemma_domain_facts(m, 1);
    crate::field::lemma_fmul_one(1);
    assert(crate::polyalg::grid(1, 1, kw, m));
    assert forall|i: int| 0 <= i < m implies #[trigger] poly_eval(
        rem,
        crate::polyalg::grid_point(1, kw, i),
    ) == 0 by {
        let x = pk.k_domain.point(i);
        lemma_grid_point_on_domain(m, 1, i);
        assert(denominators_nonzero(pk, r1, beta.val(), i));
        law_batched_identity_on_k(pk, rows, cols, stmt, r1, beta, r2, r3.eta, r3, fsc, qf, rf, i);
        assert(poly_eval(e, x) == 0);
        crate::polyalg::lemma_zdiv_eval(e, m, x);
        lemma_k_point_root(pk, i);
        lemma_fsub_self(1);
        crate::field::lemma_poly_eval_canonical(t, x);
        crate::field::lemma_poly_eval_canonical(rem, x);
        crate::field::lemma_zero_facts(poly_eval(t, x));
        crate::field::lemma_zero_facts(poly_eval(rem, x));
    }
    crate::polyalg::lemma_grid_unique(rem, 1, 1, kw, m);
    assert forall|x: int| #[trigger] poly_eval(e, x) == fmul(
        poly_eval(t, x),
        fsub(fpow(x, m), 1),
    ) by {
        crate::polyalg::lemma_zdiv_eval(e, m, x);
        assert(poly_eval(rem, x) == 0);
        lemma_ops_canonical(poly_eval(t, x), fsub(fpow(x, m), 1));
        crate::field::lemma_zero_facts(fmul(poly_eval(t, x), fsub(fpow(x, m), 1)));
    }
}

/// The quotient T of P − η⁹·R_F by z_K is q: at each of the 2m coset points
/// z_K·T = P − η⁹·R_F = z_K·q (round 3), and z_K has a known inverse there;
/// T − q has at most 2m coefficients, so it is 0.
#[verifier::spinoff_prover]
proof fn lemma_quotient_is_q(
    pk: &PfrPublicKey,
    rows: Seq<usize>,
    cols: Seq<usize>,
    stmt: &PfrStatement,
    r1: &Round1State,
    beta: Scalar,
    r2: &Round2State,
    r3: &crate::prover::Round3State,
    fsc: Seq<int>,
    qf: Seq<int>,
    rf: Seq<int>,
    t: Seq<int>,
)
    requires
        pk.wf(),
        pk.m >= 4,
        crate::prover::statement_interpolates(
            pk,
            stmt,
            omega_powers_at(pk, rows),
            omega_powers_at(pk, cols),
        ),
        round_one_spec(pk, rows, cols, stmt, r1),
        beta.wf(),
        round_two_spec(pk, r1, beta, r2),
        r3.eta.wf(),
        r3.polynomials[1].len() <= 2 * pk.m,
        crate::prover::round_three_from(pk, r1, r2, r3.eta.val(), r3, fsc, qf, rf),
        t.len() <= 2 * pk.m,
        forall|x: int|
            #[trigger] fsub(
                batched_at(pk, r1, r2, r3.eta.val(), x),
                fmul(fpow(r3.eta.val(), 9), poly_eval(rf, x)),
            ) == fmul(poly_eval(t, x), fsub(fpow(x, pk.m as nat), 1)),
    ensures
        forall|x: int| #[trigger] poly_eval(t, x) == r3.polynomials[1].eval(x),
{
    let p = modulus();
    let m = pk.m as nat;
    let eta = r3.eta.val();
    let qc = r3.polynomials[1].cv();
    let d = crate::polyalg::psub(t, qc);
    let cw = crate::poly::domain_point(2 * m, 1);
    let inv7 = 14981678621464625851270783002338847382197300714436467949315331057125308909861int;
    crate::poly::lemma_domain_facts(2 * m, 1);
    assert(fmul(7, inv7) == 1) by {
        reveal(fmul);
    }
    assert(crate::polyalg::grid(7, inv7, cw, 2 * m));
    assert forall|i: int| 0 <= i < 2 * m implies #[trigger] poly_eval(
        d,
        crate::polyalg::grid_point(7, cw, i),
    ) == 0 by {
        let x = crate::poly::coset_point(2 * m, i as nat);
        lemma_grid_point_on_domain(2 * m, 7, i);
        law_defect_vanishes_on_coset(pk, rows, cols, stmt, r1, beta, r2, r3, fsc, qf, rf, i);
        let tv = poly_eval(t, x);
        let qv = poly_eval(qc, x);
        let zv = fsub(fpow(x, m), 1);
        let ev = fsub(batched_at(pk, r1, r2, eta, x), fmul(fpow(eta, 9), poly_eval(rf, x)));
        assert(ev == fmul(tv, zv));
        crate::field::lemma_poly_eval_canonical(t, x);
        crate::field::lemma_poly_eval_canonical(qc, x);
        lemma_ops_canonical(fpow(x, m), 1);
        lemma_ops_canonical(tv, zv);
        lemma_ops_canonical(zv, qv);
        // z(x)·(T(x) − q(x)) = 0
        lemma_fsub_zero(fmul(tv, zv), fmul(zv, qv));
        lemma_fmul_comm(tv, zv);
        lemma_fmul_distrib_sub(zv, tv, qv);
        lemma_fsub_self(fmul(zv, qv));
        crate::polyalg::lemma_poly_eval_ops(t, qc, 0, 0, x);
        let dv = fsub(tv, qv);
        assert(fmul(zv, dv) == 0);
        // z(x) ≠ 0 has a known inverse
        reveal(PfrPublicKey::coset_avoids_k);
        assert(zv != 0);
        assert(inverse_known(zv));
        vstd::arithmetic::div_mod::lemma_small_mod(zv as nat, p as nat);
        lemma_ops_canonical(tv, qv);
        lemma_fmul_assoc(finv(zv), zv, dv);
        lemma_fmul_one(dv);
        reveal(fmul);
        vstd::arithmetic::div_mod::lemma_small_mod(0, p as nat);
        assert(finv(zv) * 0 == 0);
    }
    crate::polyalg::lemma_grid_unique(d, 7, inv7, cw, 2 * m);
    assert forall|x: int| #[trigger] poly_eval(t, x) == r3.polynomials[1].eval(x) by {
        crate::polyalg::lemma_poly_eval_ops(t, qc, 0, 0, x);
        assert(poly_eval(d, x) == 0);
        crate::field::lemma_poly_eval_canonical(t, x);
        crate::field::lemma_poly_eval_canonical(qc, x);
        lemma_fsub_zero(poly_eval(t, x), poly_eval(qc, x));
    }
}

/// Round five's opening divides exactly.  For the rounds that the prover
/// runs on valid index pairs (m ≥ 4), with β such that the five denominators
/// of eq. (8) are non-zero at every point of K:
///
/// - q is the quotient of P − η⁹·R_F by z_K, as polynomials:
///   q(x)·z_K(x) = P(x) − η⁹·R_F(x) for every x;
/// - hence Lin(α) = 0, and the numerator of the batched opening vanishes at
///   α, so by [`crate::prover::round_five`]'s contract it is Q(x)·(x − α).
///
/// P − η⁹·R_F vanishes on K, so it is z_K times its quotient T; T and q
/// agree at the 2m points of the coset, and both have at most 2m
/// coefficients, so T = q.
pub proof fn law_round_five_divides_exactly(
    pk: &PfrPublicKey,
    rows: Seq<usize>,
    cols: Seq<usize>,
    stmt: &PfrStatement,
    r1: &Round1State,
    beta: Scalar,
    r2: &Round2State,
    r3: &crate::prover::Round3State,
    r4: &crate::prover::Round4State,
    fsc: Seq<int>,
    qf: Seq<int>,
    rf: Seq<int>,
    delta: int,
)
    requires
        pk.wf(),
        pk.m >= 4,
        crate::types::valid_pairs(rows, cols, pk.n as int, pk.t as int, pk.m as int),
        crate::prover::statement_interpolates(
            pk,
            stmt,
            omega_powers_at(pk, rows),
            omega_powers_at(pk, cols),
        ),
        round_one_spec(pk, rows, cols, stmt, r1),
        beta.wf(),
        round_two_spec(pk, r1, beta, r2),
        forall|i: int| 0 <= i < pk.m ==> #[trigger] denominators_nonzero(pk, r1, beta.val(), i),
        r3.eta.wf(),
        r3.eta9.val() == fpow(r3.eta.val(), 9),
        r3.u_poly.cv() == crate::prover::u_coeffs(),
        r3.polynomials.len() == 2,
        r3.polynomials[1].len() <= 2 * pk.m,
        crate::prover::round_three_from(pk, r1, r2, r3.eta.val(), r3, fsc, qf, rf),
        r4.alpha.wf(),
        r4.h_alpha.val() == pk.h_poly.eval(r4.alpha.val()),
        r4.r_alpha.val() == r1.polynomials[0].eval(r4.alpha.val()),
        r4.c_alpha.val() == r1.polynomials[1].eval(r4.alpha.val()),
        r4.row_alpha.val() == r1.polynomials[7].eval(r4.alpha.val()),
    ensures
        forall|x: int|
            #[trigger] fmul(r3.polynomials[1].eval(x), fsub(fpow(x, pk.m as nat), 1)) == fsub(
                batched_at(pk, r1, r2, r3.eta.val(), x),
                fmul(fpow(r3.eta.val(), 9), poly_eval(rf, x)),
            ),
        crate::prover::lin_at(pk, r1, r2, r3, r4, r4.alpha.val()) == 0,
        crate::prover::opening_numerator_at(pk, r1, r2, r3, r4, delta, r4.alpha.val()) == 0,
{
    let p = modulus();
    let m = pk.m as nat;
    let eta = r3.eta.val();
    let e = reduced_batched_poly(pk, r1, r2, eta, rf);
    let t = crate::polyalg::zdiv(e, m).0;
    lemma_reduced_is_multiple_of_zk(pk, rows, cols, stmt, r1, beta, r2, r3, fsc, qf, rf);
    assert forall|x: int| #[trigger] fsub(
        batched_at(pk, r1, r2, eta, x),
        fmul(fpow(eta, 9), poly_eval(rf, x)),
    ) == fmul(poly_eval(t, x), fsub(fpow(x, m), 1)) by {
        lemma_reduced_batched_eval(pk, r1, r2, eta, rf, x);
        assert(poly_eval(e, x) == fmul(poly_eval(t, x), fsub(fpow(x, m), 1)));
    }
    lemma_quotient_is_q(pk, rows, cols, stmt, r1, beta, r2, r3, fsc, qf, rf, t);
    assert forall|x: int| #[trigger] fmul(r3.polynomials[1].eval(x), fsub(fpow(x, m), 1)) == fsub(
        batched_at(pk, r1, r2, eta, x),
        fmul(fpow(eta, 9), poly_eval(rf, x)),
    ) by {
        assert(poly_eval(t, x) == r3.polynomials[1].eval(x));
    }
    // Lin(α) = U(α)·defect(α) = 0
    let a = r4.alpha.val();
    law_lin_at_alpha(pk, rows, cols, stmt, r1, beta, r2, r3, r4, fsc, qf, rf);
    let qa = r3.polynomials[1].eval(a);
    let za = fsub(fpow(a, m), 1);
    lemma_fmul_comm(qa, za);
    assert(fmul(qa, za) == fsub(
        batched_at(pk, r1, r2, eta, a),
        fmul(fpow(eta, 9), poly_eval(rf, a)),
    ));
    lemma_fsub_self(fmul(za, qa));
    assert(quotient_defect(pk, r1, r2, r3, rf, a) == 0);
    law_opening_at_alpha(pk, r1, r2, r3, r4, delta);
    reveal(fmul);
    assert(r3.u_poly.eval(a) * 0 == 0);
    assert(fpow(delta, 4) * 0 == 0);
    vstd::arithmetic::div_mod::lemma_small_mod(0, p as nat);
}

/// The five denominators of eq. (8) at κ^i are non-zero: β + R, β + C,
/// β + C/(Δ·R), β + C/Δᵗ and β + h.
pub open spec fn denominators_nonzero(pk: &PfrPublicKey, r1: &Round1State, b: int, i: int) -> bool {
    let x = pk.k_domain.point(i);
    let r = r1.polynomials[0].eval(x);
    let c = r1.polynomials[1].eval(x);
    let delta = pk.d_domain.point(1);
    &&& fadd(b, r) != 0
    &&& fadd(b, c) != 0
    &&& fadd(b, fmul(c, finv(fmul(delta, r)))) != 0
    &&& fadd(b, fmul(c, finv(fpow(delta, pk.t as nat)))) != 0
    &&& fadd(b, pk.h_poly.eval(x)) != 0
}

/// `a − b = 0` for canonical `a`, `b` means `a = b`.
proof fn lemma_fsub_zero(a: int, b: int)
    requires
        0 <= a < modulus(),
        0 <= b < modulus(),
        fsub(a, b) == 0,
    ensures
        a == b,
{
    reveal(fsub);
    let p = modulus();
    if a != b {
        if a > b {
            vstd::arithmetic::div_mod::lemma_small_mod((a - b) as nat, p as nat);
        } else {
            vstd::arithmetic::div_mod::lemma_mod_add_multiples_vanish(a - b, p);
            vstd::arithmetic::div_mod::lemma_small_mod((a - b + p) as nat, p as nat);
        }
    }
}

/// Point `i` of the coset `g·D` (for `g` 1 or 7) of the domain D of size
/// `size` is [`crate::polyalg::grid_point`] of D's generator.
proof fn lemma_grid_point_on_domain(size: nat, g: int, i: int)
    requires
        0 <= i,
        0 <= g < modulus(),
    ensures
        crate::polyalg::grid_point(g, crate::poly::domain_point(size, 1), i) == fmul(
            g,
            crate::poly::domain_point(size, i as nat),
        ),
        crate::polyalg::grid_point(1, crate::poly::domain_point(size, 1), i)
            == crate::poly::domain_point(size, i as nat),
{
    let dg = crate::poly::domain_generator(size);
    vstd::arithmetic::power::lemma_pow1(dg);
    crate::field::lemma_fpow_mod(dg, i as nat);
    lemma_fpow_canonical(dg, i as nat);
    lemma_fmul_one(crate::poly::domain_point(size, i as nat));
}

} // verus!
