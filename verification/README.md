# pfr

A Proof of Function Relation over BLS12-381 with KZG commitments: the prover
shows that the index pairs `(r_i, c_i)` of a relation are strictly lower
triangular (with offset `t`) and lie in a table of size `n`, through the
rational lookup identity (eq. 7) summed over the domain `K`.

The library is written in Verus. Its functions carry `requires` / `ensures`
contracts over a mathematical model (field elements as integers modulo the
scalar field's order, polynomials as coefficient sequences), and Verus proves
them. The arkworks crates do the field, polynomial, FFT and commitment work;
each call into them goes through a small trusted wrapper whose contract
states what the crate's source documents.

## Layout

- `src/field.rs` — scalars as canonical limbs, field arithmetic.
- `src/poly.rs` — dense polynomials and radix-2 evaluation domains.
- `src/commit.rs` — KZG setup, commitments, multi-scalar multiplication and
  the pairing check.
- `src/transcript.rs` — the Fiat-Shamir transcript.
- `src/types.rs` — public key, statement, proof and public inputs;
  multiplicities and the z_{K∖H} polynomial.
- `src/prover.rs` — the five rounds and `prove`.
- `src/verify.rs` — the verifier: the MSM for `[y]₁`, the group checks and
  the comparison of the two pairings.
- `src/identities.rs` — the identities the prover's polynomials satisfy on
  `K`: the lookup sum-check, the rational identities of round 3, the square
  roots, z_{K∖H} as the indicator of `H`, the remainder R_F without constant
  term, the quotient defect of q (zero on the coset) and Lin(α) in terms of
  it, the opening at α, and the exact division of round 5: q·z_K equals
  P − η⁹·R_F as polynomials, so Lin(α) = 0.
- `src/polyalg.rs` — polynomials as coefficient sequences: sums, products,
  division by `X^m − 1`, and a polynomial of at most `n` coefficients that
  vanishes on a coset of a subgroup of order `n` being zero.
- `src/counting.rs` — operation counting, with an explicit counter.
- `app/lib.rs` — the per-thread counter and the printed summary.
- `tests/` — the protocol's round and end-to-end tests and unit tests.
