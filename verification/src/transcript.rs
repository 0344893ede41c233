//! The Fiat–Shamir transcript.
//!
//! A transcript is the list of byte strings fed to the hash-chained random
//! number generator of `ark_marlin`: the first one seeds it, each further one
//! is absorbed.  A challenge is a field element drawn from the generator right
//! after the last absorbed message, so it is a function of the messages alone.
use vstd::prelude::*;
use crate::commit::byte_seqs;
use crate::field::Scalar;
use ark_bls12_381::Fr;
use ark_ff::{PrimeField, UniformRand};
use ark_marlin::rng::FiatShamirRng;
use blake2::Blake2s;

verus! {

/// The challenge drawn after seeding with `messages[0]` and absorbing the
/// rest in order.
pub uninterp spec fn fiat_shamir_challenge(messages: Seq<Seq<u8>>) -> int;

/// A Fiat–Shamir transcript: the messages absorbed so far, the seed first.
pub struct Transcript {
    pub messages: Vec<Vec<u8>>,
}

impl Transcript {
    /// The byte strings of the messages.
    pub open spec fn msgs(&self) -> Seq<Seq<u8>> {
        byte_seqs(self.messages@)
    }

    /// A transcript seeded with `seed`.
    pub fn new(seed: Vec<u8>) -> (r: Transcript)
        ensures
            r.msgs() == seq![seed@],
    {
        let mut messages: Vec<Vec<u8>> = Vec::new();
        messages.push(seed);
        let r = Transcript { messages };
        assert(r.msgs() =~= seq![seed@]);
        r
    }

    /// Absorbs one more message.
    pub fn absorb(&mut self, msg: Vec<u8>)
        ensures
            final(self).msgs() == old(self).msgs().push(msg@),
    {
        self.messages.push(msg);
        assert(self.msgs() =~= old(self).msgs().push(msg@));
    }

    /// The challenge for the messages absorbed so far.
    pub fn challenge(&self) -> (r: Scalar)
        requires
            self.msgs().len() >= 1,
        ensures
            r.wf(),
            r.val() == fiat_shamir_challenge(self.msgs()),
    {
        fs_challenge(&self.messages)
    }
}

/// `FiatShamirRng::<Blake2s>::from_seed(&messages[0])`, then `absorb` of
/// each further message in order, then one `Fr::rand` draw.  The generator is
/// reseeded from a hash of everything absorbed, so the draw is a function of
/// the messages alone.
#[verifier::external_body]
fn fs_challenge(messages: &Vec<Vec<u8>>) -> (r: Scalar)
    requires
        messages.len() >= 1,
    ensures
        r.wf(),
        r.val() == fiat_shamir_challenge(byte_seqs(messages@)),
{
    let mut rng = FiatShamirRng::<Blake2s>::from_seed(&messages[0]);
    for m in messages.iter().skip(1) {
        rng.absorb(m);
    }
    Scalar { limbs: Fr::rand(&mut rng).into_repr().0 }
}

} // verus!
