//! Proof of Function Relation (PFR): a KZG-based argument that the index
//! pairs (r_i, c_i) of a relation are strictly lower triangular and lie in a
//! table of size n, proved with a rational lookup identity over the domain K.
//!
//! ## Notation
//!
//! | Paper | Code                  | Meaning                                           |
//! |-------|-----------------------|---------------------------------------------------|
//! | n     | `pk.n`                | \|H\|: table domain size                          |
//! | m     | `pk.m`                | \|K\|: number of index pairs                      |
//! | t     | `pk.t`                | strictly-lower-triangular offset                  |
//! | ω     | `h_domain.element(1)` | generator of H                                    |
//! | κ     | `k_domain.element(1)` | generator of K                                    |
//! | Δ     | `d_domain.element(1)` | generator of D, with Δ² = ω                       |
//! | r_i   | `row_indices[i]`      | row index of the i-th pair                        |
//! | c_i   | `col_indices[i]`      | column index of the i-th pair                     |
//! | m_j   | `mults[j]`            | multiplicity of h(ω^j) in the 4m-element multiset |
//!
//! ## Equation (7) — the lookup identity
//!
//! ```text
//!   m                                                           n-1
//!   ∑  [ 1/(R(κ^i)+X) + 1/(C(κ^i)+X)                     =       ∑   m_j / (h(ω^j)+X)
//!  i=1    + 1/(C(κ^i)/(Δ·R(κ^i))+X) + 1/(C(κ^i)/Δ^t+X) ]        j=0
//! ```
//!
//! ## 5-round protocol
//!
//! | Round | Prover sends                        | Challenge |
//! |-------|-------------------------------------|-----------|
//! | 1     | \[R(τ), C(τ), m(τ), S(τ), row̃(τ)\]₁ | β         |
//! | 2     | \[F₁(τ), …, F₅(τ)\]₁                | η         |
//! | 3     | \[R\*(τ), q(τ)\]₁                   | α         |
//! | 4     | field elements h_α, R_α, C_α, row̃_α | δ         |
//! | 5     | \[Q(τ)\]₁                           | —         |
pub mod commit;
pub mod counting;
pub mod field;
pub mod identities;
pub mod poly;
pub mod polyalg;
pub mod prover;
pub mod transcript;
pub mod types;
pub mod verify;

pub use counting::OpCounts;
pub use prover::{
    commit_statement, commit_statement_from_evals, prove, round_five, round_four, round_one,
    round_three, round_two,
};
pub use prover::{Round1State, Round2State, Round3State, Round4State};
pub use types::{PfrProof, PfrPublicInputs, PfrPublicKey, PfrStatement};
pub use verify::verify;
