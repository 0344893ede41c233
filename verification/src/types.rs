//! Public parameters, statements and proofs.
use vstd::prelude::*;
use crate::commit::{g1_in_group, g2_in_group, kzg_commit, kzg_commitment, kzg_setup, Commitment, CommitterKey, Rand, VerifierKey};
use crate::field::{finv, fmul, fpow, fsub, modulus, Scalar};
use crate::transcript::fiat_shamir_challenge;
use crate::poly::{
    all_wf, coset_point, interpolation, poly_eval, truncated, valid_domain_size, vals, Domain, Poly,
};
use ark_std::rand::rngs::StdRng;

verus! {

// ---------------------------------------------------------------------------
// Multiplicities — equation (7)
// ---------------------------------------------------------------------------

/// 1 if `a == b`, else 0.
pub open spec fn ind(a: int, b: int) -> nat {
    if a == b {
        1
    } else {
        0
    }
}

/// How many of the first `k` pairs' four table indices
/// `r_i, c_i, c_i − r_i − 1, c_i − t` equal `j`.
pub open spec fn mult_count(rows: Seq<usize>, cols: Seq<usize>, t: int, k: int, j: int) -> nat
    decreases k,
{
    if k <= 0 {
        0
    } else {
        let r = rows[k - 1] as int;
        let c = cols[k - 1] as int;
        mult_count(rows, cols, t, k - 1, j) + ind(r, j) + ind(c, j) + ind(c - r - 1, j) + ind(
            c - t,
            j,
        )
    }
}

/// The pairs `(r_i, c_i)`, `i < k`, index a table of size `n` with offset
/// `t`: `r_i < c_i < n` and `c_i ≥ t`.
pub open spec fn valid_pairs(rows: Seq<usize>, cols: Seq<usize>, n: int, t: int, k: int) -> bool {
    &&& k <= rows.len()
    &&& k <= cols.len()
    &&& forall|i: int|
        0 <= i < k ==> #[trigger] rows[i] < cols[i] && cols[i] < n && cols[i] >= t
}

/// `Σ_{j < n} f(j)` for `f = mult_count(rows, cols, t, k, ·)`.
pub open spec fn total_mults(rows: Seq<usize>, cols: Seq<usize>, t: int, k: int, n: int) -> nat
    decreases n,
{
    if n <= 0 {
        0
    } else {
        total_mults(rows, cols, t, k, n - 1) + mult_count(rows, cols, t, k, n - 1)
    }
}

/// `Σ_{j < n} [x = j]` is 1 for `0 ≤ x < n`.
proof fn lemma_sum_ind(x: int, n: int)
    requires
        0 <= x < n,
    ensures
        sum_ind(x, n) == 1,
    decreases n,
{
    if n - 1 > x {
        lemma_sum_ind(x, n - 1);
    } else {
        lemma_sum_ind_zero(x, n - 1);
    }
}

/// `Σ_{j < n} [x = j]`.
pub open spec fn sum_ind(x: int, n: int) -> nat
    decreases n,
{
    if n <= 0 {
        0
    } else {
        sum_ind(x, n - 1) + ind(x, n - 1)
    }
}

proof fn lemma_sum_ind_zero(x: int, n: int)
    requires
        n <= x,
    ensures
        sum_ind(x, n) == 0,
    decreases n,
{
    if n > 0 {
        lemma_sum_ind_zero(x, n - 1);
    }
}

proof fn lemma_total_mults_step(rows: Seq<usize>, cols: Seq<usize>, t: int, k: int, n: int)
    requires
        k >= 1,
    ensures
        total_mults(rows, cols, t, k, n) == total_mults(rows, cols, t, k - 1, n) + sum_ind(
            rows[k - 1] as int,
            n,
        ) + sum_ind(cols[k - 1] as int, n) + sum_ind(cols[k - 1] - rows[k - 1] - 1, n)
            + sum_ind(cols[k - 1] - t, n),
    decreases n,
{
    if n > 0 {
        lemma_total_mults_step(rows, cols, t, k, n - 1);
    }
}

/// The multiplicities over a table of size `n` add up to four per pair:
/// each pair contributes four table indices, all below `n`.
pub proof fn law_total_multiplicity(rows: Seq<usize>, cols: Seq<usize>, n: int, t: int, k: int)
    requires
        0 <= k,
        0 <= t,
        valid_pairs(rows, cols, n, t, k),
    ensures
        total_mults(rows, cols, t, k, n) == 4 * k,
    decreases k,
{
    if k == 0 {
        lemma_total_zero(rows, cols, t, n);
    } else {
        law_total_multiplicity(rows, cols, n, t, k - 1);
        lemma_total_mults_step(rows, cols, t, k, n);
        let r = rows[k - 1] as int;
        let c = cols[k - 1] as int;
        assert(r < c && c < n && c >= t);
        lemma_sum_ind(r, n);
        lemma_sum_ind(c, n);
        lemma_sum_ind(c - r - 1, n);
        lemma_sum_ind(c - t, n);
    }
}

proof fn lemma_total_zero(rows: Seq<usize>, cols: Seq<usize>, t: int, n: int)
    ensures
        total_mults(rows, cols, t, 0, n) == 0,
    decreases n,
{
    if n > 0 {
        lemma_total_zero(rows, cols, t, n - 1);
    }
}

proof fn lemma_mult_count_bound(rows: Seq<usize>, cols: Seq<usize>, t: int, k: int, j: int)
    requires
        k >= 0,
    ensures
        mult_count(rows, cols, t, k, j) <= 4 * k,
    decreases k,
{
    if k > 0 {
        lemma_mult_count_bound(rows, cols, t, k - 1, j);
    }
}

// ---------------------------------------------------------------------------
// z_{K∖H}
// ---------------------------------------------------------------------------

/// The coefficients of `z_{K∖H}(X) = (n/m)·(1 + Xⁿ + X²ⁿ + … + X^{m−n})`:
/// `n/m` at the multiples of `n`, 0 elsewhere.
pub open spec fn zkh_coeffs(n: int, m: int) -> Seq<int> {
    Seq::new(
        ((m / n - 1) * n + 1) as nat,
        |i: int|
            if i % n == 0 {
                fmul(n, finv(m))
            } else {
                0
            },
    )
}

// ---------------------------------------------------------------------------
// Public key
// ---------------------------------------------------------------------------

/// Public parameters for the PFR (output of the key-generation phase).
///
/// Contains the table polynomial h(X) — committed once and reused across
/// many proofs — together with the KZG commitment keys and the domains.
pub struct PfrPublicKey {
    /// n = |H|: size of the table domain H = <ω>.
    pub n: usize,
    /// m = |K|: number of index pairs (non-zero entries of the relation).
    pub m: usize,
    /// t: strictly-lower-triangular offset; every column index satisfies c_i ≥ t.
    pub t: usize,
    /// H = <ω>, |H| = n
    pub h_domain: Domain,
    /// D = <Δ>, |D| = 2n, Δ² = ω
    pub d_domain: Domain,
    /// K = <κ>, |K| = m
    pub k_domain: Domain,
    /// Domain of size 2m whose coset (disjoint from K) round 3 evaluates on.
    pub coset_domain: Domain,
    /// Table polynomial: h(ω^j) = Δ^j for j = 0, …, n−1.
    pub h_poly: Poly,
    /// h(X) evaluated over the coset of `coset_domain`, precomputed at setup time.
    pub h_coset_evals: Vec<Scalar>,
    /// z_{K\H}(X) evaluated over the coset of `coset_domain`, precomputed at setup time.
    pub zkh_coset_evals: Vec<Scalar>,
    pub ck: CommitterKey,
    pub vk: VerifierKey,
    pub h_commitment: Commitment,
    pub h_randomness: Rand,
}

/// The largest polynomial degree that the protocol commits to.
pub open spec fn max_degree(n: int, m: int) -> int {
    if n - 1 > 2 * m + 3 {
        n - 1
    } else {
        2 * m + 3
    }
}

/// The sizes admitted by key generation: n and m powers of two with
/// n | m, and 2m a valid domain size.
pub open spec fn valid_sizes(n: int, m: int) -> bool {
    &&& 1 <= n <= m
    &&& m % n == 0
    &&& valid_domain_size(n as nat)
    &&& valid_domain_size(2 * n as nat)
    &&& valid_domain_size(m as nat)
    &&& valid_domain_size(2 * m as nat)
    &&& 2 * m + 4 <= usize::MAX
}

impl PfrPublicKey {
    /// The key was built for sizes `n`, `m`: its domains have the right
    /// sizes, h interpolates `Δ^j` on H, the coset evaluations are those of
    /// h and z_{K∖H}, and the committer key reaches the protocol's degrees.
    pub open spec fn wf(&self) -> bool {
        &&& valid_sizes(self.n as int, self.m as int)
        &&& self.h_domain.size == self.n
        &&& self.d_domain.size == 2 * self.n
        &&& self.k_domain.size == self.m
        &&& self.coset_domain.size == 2 * self.m
        &&& self.h_poly.wf()
        &&& self.h_poly.len() <= self.n
        &&& forall|j: int|
            0 <= j < self.n ==> #[trigger] self.h_poly.eval(self.h_domain.point(j))
                == self.d_domain.point(j)
        &&& self.h_coset_evals.len() == 2 * self.m
        &&& all_wf(self.h_coset_evals@)
        &&& forall|i: int|
            0 <= i < 2 * self.m ==> #[trigger] self.h_coset_evals@[i].val() == poly_eval(
                self.h_poly.cv(),
                coset_point(2 * self.m as nat, i as nat),
            )
        &&& self.zkh_coset_evals.len() == 2 * self.m
        &&& all_wf(self.zkh_coset_evals@)
        &&& forall|i: int|
            0 <= i < 2 * self.m ==> #[trigger] self.zkh_coset_evals@[i].val() == poly_eval(
                zkh_coeffs(self.n as int, self.m as int),
                coset_point(2 * self.m as nat, i as nat),
            )
        &&& self.ck.supported() >= max_degree(self.n as int, self.m as int)
        &&& self.h_committed()
        &&& self.coset_avoids_k()
        &&& fpow(self.d_domain.point(1), (2 * self.n) as nat) == 1
        &&& self.d_domain.point(2) == self.h_domain.point(1)
        &&& fpow(self.k_domain.point(1), self.m as nat) == 1
        &&& self.k_roots()
    }

    /// The coset of the size-2m domain on which h and z_{K∖H} are evaluated
    /// avoids K: z_K = X^m − 1 is non-zero at each of its 2m points.
    #[verifier::opaque]
    pub open spec fn coset_avoids_k(&self) -> bool {
        forall|i: int|
            0 <= i < 2 * self.m ==> #[trigger] fsub(
                fpow(coset_point((2 * self.m) as nat, i as nat), self.m as nat),
                1,
            ) != 0
    }

    /// `h_commitment` is the commitment to h under the key.
    #[verifier::opaque]
    pub open spec fn h_committed(&self) -> bool {
        self.h_commitment.bytes@ == kzg_commitment(self.ck.g1_powers(), self.h_poly.cv())
    }

    /// How K sits over H: κ^{m/n} = ω, and κ^{m/2} = −1 when m ≥ 2.
    #[verifier::opaque]
    pub open spec fn k_roots(&self) -> bool {
        &&& self.k_domain.point((self.m / self.n) as int) == self.h_domain.point(1)
        &&& self.m >= 2 ==> fpow(self.k_domain.point(1), (self.m / 2) as nat) == modulus() - 1
    }

    /// Generate public parameters.
    ///
    /// - `n`: table size |H|
    /// - `m`: number of index pairs |K|
    /// - `t`: strictly-lower-triangular offset
    ///
    /// No zero-knowledge: no hiding bound.
    pub fn setup(n: usize, m: usize, t: usize, rng: &mut StdRng) -> (pk: PfrPublicKey)
        requires
            valid_sizes(n as int, m as int),
        ensures
            pk.wf(),
            pk.n == n,
            pk.m == m,
            pk.t == t,
            pk.ck.supported() == max_degree(n as int, m as int),
            pk.h_commitment.bytes@ == kzg_commitment(pk.ck.g1_powers(), pk.h_poly.cv()),
            pk.h_poly.cv() == interpolation(Seq::new(n as nat, |j: int| pk.d_domain.point(j)), n as nat),
            forall|i: int|
                0 <= i < 2 * m ==> #[trigger] fsub(
                    fpow(coset_point((2 * m) as nat, i as nat), m as nat),
                    1,
                ) != 0,
            g1_in_group(pk.vk.g@),
            g1_in_group(pk.h_commitment.bytes@),
            g2_in_group(pk.vk.h@),
            g2_in_group(pk.vk.beta_h@),
    {
        // Maximum degree to support: max(n−1, 2m+3, 2m).
        let max_degree: usize = if n - 1 > 2 * m + 3 {
            n - 1
        } else {
            2 * m + 3
        };
        let (ck, vk) = kzg_setup(max_degree, rng);
        PfrPublicKey::from_keys(ck, vk, n, m, t)
    }

    /// Build a `PfrPublicKey` reusing an externally-provided `(ck, vk)`.
    ///
    /// Use this when the KZG SRS was already generated by another component,
    /// so that both proofs share the same trusted setup.  The key must support
    /// the maximum degree `max(n−1, 2m+3)`.
    pub fn with_keys(
        ck: CommitterKey,
        vk: VerifierKey,
        n: usize,
        m: usize,
        t: usize,
        rng: &mut StdRng,
    ) -> (pk: PfrPublicKey)
        requires
            valid_sizes(n as int, m as int),
            ck.supported() >= max_degree(n as int, m as int),
        ensures
            pk.wf(),
            pk.n == n,
            pk.m == m,
            pk.t == t,
            pk.ck == ck,
            pk.vk == vk,
            pk.h_commitment.bytes@ == kzg_commitment(pk.ck.g1_powers(), pk.h_poly.cv()),
            g1_in_group(pk.h_commitment.bytes@),
            pk.h_poly.cv() == interpolation(Seq::new(n as nat, |j: int| pk.d_domain.point(j)), n as nat),
            forall|i: int|
                0 <= i < 2 * m ==> #[trigger] fsub(
                    fpow(coset_point((2 * m) as nat, i as nat), m as nat),
                    1,
                ) != 0,
    {
        PfrPublicKey::from_keys(ck, vk, n, m, t)
    }

    fn from_keys(ck: CommitterKey, vk: VerifierKey, n: usize, m: usize, t: usize) -> (pk:
        PfrPublicKey)
        requires
            valid_sizes(n as int, m as int),
            ck.supported() >= max_degree(n as int, m as int),
        ensures
            pk.wf(),
            pk.n == n,
            pk.m == m,
            pk.t == t,
            pk.ck == ck,
            pk.vk == vk,
            pk.h_commitment.bytes@ == kzg_commitment(pk.ck.g1_powers(), pk.h_poly.cv()),
            g1_in_group(pk.h_commitment.bytes@),
            pk.h_poly.cv() == interpolation(Seq::new(n as nat, |j: int| pk.d_domain.point(j)), n as nat),
            forall|i: int|
                0 <= i < 2 * m ==> #[trigger] fsub(
                    fpow(coset_point((2 * m) as nat, i as nat), m as nat),
                    1,
                ) != 0,
    {
        let h_domain = Domain { size: n };
        let d_domain = Domain { size: 2 * n };
        let k_domain = Domain { size: m };
        let coset_domain = Domain { size: 2 * m };

        // h(X): unique polynomial of degree < n with h(ω^j) = Δ^j for j = 0, …, n−1.
        let mut h_evals: Vec<Scalar> = Vec::new();
        let mut j: usize = 0;
        while j < n
            invariant
                j <= n,
                valid_sizes(n as int, m as int),
                d_domain.size == 2 * n,
                h_evals.len() == j,
                all_wf(h_evals@),
                forall|i: int| 0 <= i < j ==> #[trigger] h_evals@[i].val() == d_domain.point(i),
            decreases n - j,
        {
            h_evals.push(d_domain.element(j));
            j = j + 1;
        }
        assert(vals(h_evals@) =~= Seq::new(n as nat, |j: int| d_domain.point(j)));
        let h_poly = h_domain.interpolate(&h_evals);
        // Δ is a 2n-th root of unity whose square is ω; κ is an m-th root of
        // unity with κ^{m/2} = −1 and κ^{m/n} = ω; the coset g·D of the
        // size-2m domain misses K.
        proof {
            let k = m as int / n as int;
            assert(m as int == n as int * k && k >= 1) by (nonlinear_arith)
                requires
                    1 <= n <= m,
                    m % n == 0,
                    k == m as int / n as int,
            ;
            vstd::arithmetic::div_mod::lemma_mod_multiples_basic(n as int, k);
            vstd::arithmetic::div_mod::lemma_div_multiples_vanish(n as int, k);
            crate::poly::lemma_domain_facts((2 * n) as nat, 1);
            crate::poly::lemma_domain_facts((2 * n) as nat, 2);
            crate::poly::lemma_domain_facts(m as nat, 1);
            crate::poly::lemma_domain_facts(m as nat, k as nat);
            assert forall|i: int| 0 <= i < 2 * m implies #[trigger] fsub(
                fpow(coset_point((2 * m) as nat, i as nat), m as nat),
                1,
            ) != 0 by {
                crate::poly::lemma_coset_avoids_half_subgroup((2 * m) as nat, i as nat);
            }
        }
        // Precompute h over the coset of the size-2m domain.
        let h_coset_evals = coset_domain.coset_fft(&h_poly);

        // z_{K\H}(X) = (n/m)·(X^{m−n} + X^{m−2n} + … + 1), coeffs at multiples of n.
        let zkh_poly = zkh_polynomial(n, m);
        let zkh_coset_evals = coset_domain.coset_fft(&zkh_poly);

        let mut polys: Vec<Poly> = Vec::new();
        polys.push(h_poly);
        let (mut comms, mut rands) = kzg_commit(&ck, &polys);
        let h_commitment = comms.remove(0);
        let h_randomness = rands.remove(0);
        let h_poly = polys.pop().unwrap();
        assert(h_poly.cv() == truncated(h_poly.cv(), 2 * m as nat));
        assert(zkh_poly.cv() == truncated(zkh_poly.cv(), 2 * m as nat));
        proof {
            reveal(PfrPublicKey::k_roots);
            reveal(PfrPublicKey::h_committed);
            reveal(PfrPublicKey::coset_avoids_k);
        }
        PfrPublicKey {
            n,
            m,
            t,
            h_domain,
            d_domain,
            k_domain,
            coset_domain,
            h_poly,
            h_coset_evals,
            zkh_coset_evals,
            ck,
            vk,
            h_commitment,
            h_randomness,
        }
    }

    /// Compute the multiplicity vector (m_0, …, m_{n-1}) satisfying equation (7).
    ///
    /// Each pair (r_i, c_i) contributes four table indices:
    ///
    /// | Term in eq. (7)| Value         |Table index|
    /// |----------------|---------------|-----------|
    /// | R(κ^i)         | Δ^{r_i}       | r_i       |
    /// | C(κ^i)         | Δ^{c_i}       | c_i       |
    /// | C/(Δ·R)(κ^i)   | Δ^{c_i−r_i−1} | c_i−r_i−1 |
    /// | C/Δ^t(κ^i)     | Δ^{c_i−t}     | c_i−t     |
    ///
    /// m_j counts how many times index j appears across all 4·m contributions.
    /// Pairs are taken up to the shorter of the two index lists.
    ///
    /// **Preconditions**: r_i < c_i, c_i ≥ t, all resulting indices ∈ [0, n−1].
    pub fn compute_multiplicities(&self, row_indices: &[usize], col_indices: &[usize]) -> (mults:
        Vec<u64>)
        requires
            valid_pairs(
                row_indices@,
                col_indices@,
                self.n as int,
                self.t as int,
                pairs_len(row_indices@.len(), col_indices@.len()),
            ),
            row_indices@.len() <= 0x3fff_ffff_ffff_ffff,
        ensures
            mults.len() == self.n,
            forall|j: int|
                0 <= j < self.n ==> #[trigger] mults@[j] == mult_count(
                    row_indices@,
                    col_indices@,
                    self.t as int,
                    pairs_len(row_indices@.len(), col_indices@.len()),
                    j,
                ),
    {
        let k = if row_indices.len() < col_indices.len() {
            row_indices.len()
        } else {
            col_indices.len()
        };
        let ghost rows = row_indices@;
        let ghost cols = col_indices@;
        let ghost t = self.t as int;
        let mut mults: Vec<u64> = vec![0u64; self.n];
        assert forall|j: int| 0 <= j < self.n implies #[trigger] mults@[j] == mult_count(
            rows,
            cols,
            t,
            0,
            j,
        ) by {}
        let mut i: usize = 0;
        while i < k
            invariant
                k == pairs_len(rows.len(), cols.len()),
                k <= 0x3fff_ffff_ffff_ffff,
                i <= k,
                rows == row_indices@,
                cols == col_indices@,
                t == self.t as int,
                valid_pairs(rows, cols, self.n as int, t, k as int),
                mults.len() == self.n,
                forall|j: int|
                    0 <= j < self.n ==> #[trigger] mults@[j] == mult_count(
                        rows,
                        cols,
                        t,
                        i as int,
                        j,
                    ),
            decreases k - i,
        {
            let r = row_indices[i];
            let c = col_indices[i];
            assert(rows[i as int] < cols[i as int] && cols[i as int] < self.n && cols[i as int]
                >= t);
            let ghost before = mults@;
            proof {
                lemma_mult_count_bound(rows, cols, t, i as int, r as int);
                lemma_mult_count_bound(rows, cols, t, i as int, c as int);
                lemma_mult_count_bound(rows, cols, t, i as int, (c - r - 1) as int);
                lemma_mult_count_bound(rows, cols, t, i as int, (c - self.t) as int);
            }
            let v = mults[r];
            mults.set(r, v + 1);
            let v = mults[c];
            mults.set(c, v + 1);
            let v = mults[c - r - 1];
            mults.set(c - r - 1, v + 1);
            let v = mults[c - self.t];
            mults.set(c - self.t, v + 1);
            assert forall|j: int| 0 <= j < self.n implies #[trigger] mults@[j] == mult_count(
                rows,
                cols,
                t,
                i + 1,
                j,
            ) by {
                assert(mult_count(rows, cols, t, i + 1, j) == mult_count(rows, cols, t, i as int, j)
                    + ind(r as int, j) + ind(c as int, j) + ind(c - r - 1, j) + ind(c - t, j));
            }
            i = i + 1;
        }
        mults
    }

    /// Return Δ, the generator of D.
    pub fn big_delta(&self) -> (r: Scalar)
        requires
            self.wf(),
        ensures
            r.wf(),
            r.val() == self.d_domain.point(1),
    {
        self.d_domain.element(1)
    }
}

/// The number of pairs that a row list and a column list of these lengths give.
pub open spec fn pairs_len(a: nat, b: nat) -> int {
    if a < b {
        a as int
    } else {
        b as int
    }
}

/// z_{K∖H}(X) = (n/m)·(1 + Xⁿ + … + X^{m−n}) as a dense polynomial.
pub fn zkh_polynomial(n: usize, m: usize) -> (r: Poly)
    requires
        1 <= n <= m,
        m % n == 0,
        m <= 0x1_0000_0000,
    ensures
        r.wf(),
        r.len() <= m,
        r.cv() == zkh_coeffs(n as int, m as int),
{
    let steps = m / n;
    let inv_m = Scalar::from_u64(m as u64).inverse_or_zero();
    let scale = Scalar::from_u64(n as u64).mul(&inv_m);
    assert(steps >= 1) by (nonlinear_arith)
        requires
            steps == m / n,
            1 <= n <= m,
    ;
    assert((steps - 1) * n + 1 <= m) by (nonlinear_arith)
        requires
            steps == m / n,
            1 <= n <= m,
    ;
    let len = (steps - 1) * n + 1;
    let mut coeffs: Vec<Scalar> = Vec::new();
    let mut i: usize = 0;
    while i < len
        invariant
            i <= len,
            len == (steps - 1) * n + 1,
            n >= 1,
            steps == m / n,
            scale.wf(),
            scale.val() == fmul(n as int, finv(m as int)),
            coeffs.len() == i,
            all_wf(coeffs@),
            forall|j: int|
                0 <= j < i ==> #[trigger] coeffs@[j].val() == (if j % (n as int) == 0 {
                    fmul(n as int, finv(m as int))
                } else {
                    0
                }),
        decreases len - i,
    {
        if i % n == 0 {
            coeffs.push(scale);
        } else {
            coeffs.push(Scalar::zero());
        }
        i = i + 1;
    }
    let r = Poly { coeffs };
    assert(r.cv() =~= zkh_coeffs(n as int, m as int));
    r
}

// ---------------------------------------------------------------------------
// Proof type
// ---------------------------------------------------------------------------

/// PFR proof produced by the prover.
///
/// ### Round 1 — `[R(τ), C(τ), m(τ), S(τ), row̃(τ)]₁`
///   - `r_comm`:        R(X), square-root encoding of row indices
///   - `c_comm`:        C(X), square-root encoding of col indices
///   - `m_comm`:        m(X), multiplicity polynomial (satisfies eq. 7)
///   - `s_comm`:        S(X), sumcheck blinding
///   - `rowtilde_comm`: row̃(X), auxiliary polynomial; row̃(κ^i) = ω^{r_i}
///
/// ### Round 2 — `[F₁(τ), …, F₅(τ)]₁`
///   - `f_comms[j]`: F_{j+1}(X), the j-th rational-sum polynomial (eq. 8)
///
/// ### Round 3 — `[R*(τ), q(τ)]₁`
///   - `r_star_comm`: R*(X), degree-check polynomial
///   - `q_comm`:      q(X), quotient of the batched identity P(X)
///
/// ### Round 4 — field elements h_α, R_α, C_α, row̃_α
///
/// ### Round 5 — `[Q(τ)]₁`
///   - `q_poly_comm`: Q(X), the batched KZG opening proof polynomial
pub struct PfrProof {
    // Round 1
    pub r_comm: Commitment,
    pub c_comm: Commitment,
    pub m_comm: Commitment,
    pub s_comm: Commitment,
    pub rowtilde_comm: Commitment,
    // Round 2
    pub f_comms: Vec<Commitment>,
    // Round 3
    pub r_star_comm: Commitment,
    pub q_comm: Commitment,
    // Round 4
    pub h_alpha: Scalar,
    pub r_alpha: Scalar,
    pub c_alpha: Scalar,
    pub row_alpha: Scalar,
    // Round 5
    pub q_poly_comm: Commitment,
}

/// Public inputs to the PFR verifier — commitments known to both parties
/// before the proof is generated.
pub struct PfrPublicInputs {
    /// [row(τ)]₁: commitment to the row-index polynomial row(X)
    pub row_comm: Commitment,
    /// [col(τ)]₁: commitment to the column-index polynomial col(X)
    pub col_comm: Commitment,
    /// [rowcol(τ)]₁: commitment to the rowcol polynomial rowcol(X)
    pub rowcol_comm: Commitment,
}

/// Precomputed statement: polynomials, commitments, and randomness for
/// the three public index polynomials row(X), col(X), rowcol(X).
pub struct PfrStatement {
    /// row(κ^i) = ω^{r_i}: statement polynomial for row indices.
    pub row_poly: Poly,
    /// col(κ^i) = ω^{c_i}: statement polynomial for column indices.
    pub col_poly: Poly,
    /// rowcol(κ^i) = ω^{r_i}·ω^{c_i}: statement polynomial for row×col.
    pub rowcol_poly: Poly,
    /// [row(τ)]₁
    pub row_comm: Commitment,
    /// [col(τ)]₁
    pub col_comm: Commitment,
    /// [rowcol(τ)]₁
    pub rowcol_comm: Commitment,
    /// KZG randomness for row(X) (trivial in no-ZK mode).
    pub row_rand: Rand,
    /// KZG randomness for col(X) (trivial in no-ZK mode).
    pub col_rand: Rand,
    /// KZG randomness for rowcol(X) (trivial in no-ZK mode).
    pub rowcol_rand: Rand,
}

impl PfrStatement {
    /// Build a PFR statement from externally committed statement polynomials.
    ///
    /// This is the entry point for reusing a statement committed by another
    /// protocol.  The caller is responsible for ensuring that the three
    /// polynomials take the K-domain values expected by PFR and that the
    /// commitments and randomness correspond to these exact polynomials.
    pub fn from_existing(
        row_poly: Poly,
        col_poly: Poly,
        rowcol_poly: Poly,
        row_comm: Commitment,
        col_comm: Commitment,
        rowcol_comm: Commitment,
        row_rand: Rand,
        col_rand: Rand,
        rowcol_rand: Rand,
    ) -> (r: Self)
        ensures
            r.row_poly == row_poly,
            r.col_poly == col_poly,
            r.rowcol_poly == rowcol_poly,
            r.row_comm == row_comm,
            r.col_comm == col_comm,
            r.rowcol_comm == rowcol_comm,
            r.row_rand == row_rand,
            r.col_rand == col_rand,
            r.rowcol_rand == rowcol_rand,
    {
        Self {
            row_poly,
            col_poly,
            rowcol_poly,
            row_comm,
            col_comm,
            rowcol_comm,
            row_rand,
            col_rand,
            rowcol_rand,
        }
    }
}

// ---------------------------------------------------------------------------
// Fiat–Shamir messages of a proof
// ---------------------------------------------------------------------------

/// The seed of the transcript: the commitment to h.
pub open spec fn transcript_seed(pk: &PfrPublicKey) -> Seq<u8> {
    pk.h_commitment.bytes@
}

/// The Round-1 message: [R(τ)], [C(τ)], [m(τ)], [S(τ)], [row̃(τ)].
pub open spec fn round_one_message(proof: &PfrProof) -> Seq<u8> {
    proof.r_comm.bytes@ + proof.c_comm.bytes@ + proof.m_comm.bytes@ + proof.s_comm.bytes@
        + proof.rowtilde_comm.bytes@
}

/// The Round-2 message: [F₁(τ)], …, [F₅(τ)].
pub open spec fn round_two_message(proof: &PfrProof) -> Seq<u8> {
    proof.f_comms@[0].bytes@ + proof.f_comms@[1].bytes@ + proof.f_comms@[2].bytes@
        + proof.f_comms@[3].bytes@ + proof.f_comms@[4].bytes@
}

/// The Round-3 message: [R*(τ)], [q(τ)].
pub open spec fn round_three_message(proof: &PfrProof) -> Seq<u8> {
    proof.r_star_comm.bytes@ + proof.q_comm.bytes@
}

/// The Round-4 message: h_α, R_α, C_α, row̃_α.
pub open spec fn round_four_message(proof: &PfrProof) -> Seq<u8> {
    proof.h_alpha.bytes() + proof.r_alpha.bytes() + proof.c_alpha.bytes()
        + proof.row_alpha.bytes()
}

/// β, drawn after the Round-1 message.
pub open spec fn challenge_beta(pk: &PfrPublicKey, proof: &PfrProof) -> int {
    fiat_shamir_challenge(seq![transcript_seed(pk), round_one_message(proof)])
}

/// η, drawn after the Round-2 message.
pub open spec fn challenge_eta(pk: &PfrPublicKey, proof: &PfrProof) -> int {
    fiat_shamir_challenge(
        seq![transcript_seed(pk), round_one_message(proof), round_two_message(proof)],
    )
}

/// α, drawn after the Round-3 message.
pub open spec fn challenge_alpha(pk: &PfrPublicKey, proof: &PfrProof) -> int {
    fiat_shamir_challenge(
        seq![
            transcript_seed(pk),
            round_one_message(proof),
            round_two_message(proof),
            round_three_message(proof),
        ],
    )
}

/// δ, drawn after the Round-4 message.
pub open spec fn challenge_delta(pk: &PfrPublicKey, proof: &PfrProof) -> int {
    fiat_shamir_challenge(
        seq![
            transcript_seed(pk),
            round_one_message(proof),
            round_two_message(proof),
            round_three_message(proof),
            round_four_message(proof),
        ],
    )
}

} // verus!
