//! A handshake session: an ephemeral key pair, the public value derived from
//! it, and the shared secret derived from the peer's public value.

use vstd::prelude::*;
use rand::Rng;

verus! {

use crate::modexp::{mod_exp, mod_exp_spec, lemma_mod_exp_symmetry};

/// 64-bit prime modulus of the finite field; a public protocol constant.
pub const DH_P: u64 = 0xD87FA3E29184C7F3;

/// Small public generator of the field.
pub const DH_G: u64 = 2;

/// Relies on `rand::Rng::gen::<u64>` on the thread-local generator: a random
/// 64-bit value.  Nothing can be promised of the result.
#[verifier::external_body]
fn random_u64() -> u64 {
    rand::thread_rng().gen::<u64>()
}

/// One peer's handshake state.  The private exponent and public value exist
/// from construction on; the shared secret only once the peer's public value
/// has been received.
pub struct DHSession {
    pub private_key: u64,
    pub public_key: u64,
    pub shared_secret: Option<u64>,
}

impl DHSession {
    /// Well-formed: the public value is the generator raised to the private
    /// exponent, modulo the prime.
    pub open spec fn wf(self) -> bool {
        self.public_key == mod_exp_spec(DH_G, self.private_key, DH_P)
    }

    /// Fresh session from a caller-chosen private exponent: the injectable
    /// randomness seam that lets tests fix the key pair; `new` draws the
    /// exponent from the system generator instead.
    pub fn with_private_key(private_key: u64) -> (s: Self)
        ensures
            s.wf(),
            s.private_key == private_key,
            s.shared_secret is None,
    {
        let public_key = mod_exp(DH_G, private_key, DH_P);
        DHSession { private_key, public_key, shared_secret: None }
    }

    /// Fresh session with a private exponent drawn uniformly from the full
    /// 64-bit range.
    pub fn new() -> (s: Self)
        ensures
            s.wf(),
            s.shared_secret is None,
    {
        Self::with_private_key(random_u64())
    }

    /// Derive the shared secret from the peer's public value: the peer's
    /// value raised to our private exponent, modulo the prime.  Any 64-bit
    /// value is accepted, exactly as the wire protocol sends it; nothing
    /// checks that it lies below the modulus (a known hardening gap).
    pub fn compute_shared_secret(&mut self, their_public_key: u64)
        ensures
            final(self).private_key == old(self).private_key,
            final(self).public_key == old(self).public_key,
            final(self).shared_secret == Some(
                mod_exp_spec(their_public_key, old(self).private_key, DH_P),
            ),
    {
        let secret = mod_exp(their_public_key, self.private_key, DH_P);
        self.shared_secret = Some(secret);
    }
}

/// Law: two well-formed sessions that exchange public values derive the same
/// shared secret, whatever their private exponents.
pub proof fn lemma_sessions_agree(a: DHSession, b: DHSession)
    requires
        a.wf(),
        b.wf(),
    ensures
        mod_exp_spec(b.public_key, a.private_key, DH_P) == mod_exp_spec(
            a.public_key,
            b.private_key,
            DH_P,
        ),
{
    lemma_mod_exp_symmetry(DH_G, a.private_key, b.private_key, DH_P);
}

} // verus!
