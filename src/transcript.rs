//! A Fiat-Shamir transcript over Keccak-256.
use vstd::prelude::*;
use sha3::{Digest, Keccak256};
use crate::bytes::append_bytes;
use crate::field::{be_value, modulus, Fe};

verus! {

/// The Keccak-256 digest of a byte string.
pub uninterp spec fn keccak256(data: Seq<u8>) -> Seq<u8>;

/// Relies on `sha3::Keccak256::digest`: the 32-byte Keccak-256 digest of the input.
#[verifier::external_body]
fn keccak_digest(data: &[u8]) -> (r: Vec<u8>)
    ensures
        r@ == keccak256(data@),
        r@.len() == 32,
{
    Keccak256::digest(data).to_vec()
}

/// The sponge: everything absorbed so far, digests of earlier squeezes included.
pub struct Transcript {
    state: Vec<u8>,
}

impl View for Transcript {
    type V = Seq<u8>;

    closed spec fn view(&self) -> Seq<u8> {
        self.state@
    }
}

/// The challenge that a squeeze on the absorbed bytes `s` yields.
pub open spec fn challenge_of(s: Seq<u8>) -> int {
    be_value(keccak256(s)) % modulus()
}

impl Transcript {
    pub fn new() -> (r: Transcript)
        ensures
            r@ == Seq::<u8>::empty(),
    {
        Transcript { state: Vec::new() }
    }

    pub fn absorb(&mut self, bytes: &[u8])
        ensures
            final(self)@ == old(self)@ + bytes@,
    {
        append_bytes(&mut self.state, bytes);
    }

    /// The digest of everything absorbed so far; the digest is then absorbed too.
    pub fn squeeze(&mut self) -> (r: Vec<u8>)
        ensures
            r@ == keccak256(old(self)@),
            r@.len() == 32,
            final(self)@ == old(self)@ + r@,
    {
        let d = keccak_digest(self.state.as_slice());
        append_bytes(&mut self.state, d.as_slice());
        d
    }

    /// A squeeze read as a field element.
    pub fn squeeze_challenge(&mut self) -> (r: Fe)
        ensures
            r.val() == challenge_of(old(self)@),
            final(self)@ == old(self)@ + keccak256(old(self)@),
    {
        let d = self.squeeze();
        Fe::from_be_bytes_mod_order(d.as_slice())
    }
}

} // verus!
