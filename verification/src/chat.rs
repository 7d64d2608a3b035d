//! One chat turn's computation: encrypt a line under a fresh per-message
//! keystream and frame it; decrypt a received frame's payload the same way.

use vstd::prelude::*;

verus! {

use crate::cipher::{xor_cipher, xor_seq, lemma_xor_involution};
use crate::keystream::{generate_keystream, keystream_spec};
use crate::frame::{encode_frame, frame_spec, decode_frame_spec, lemma_frame_round_trip};

/// The ciphertext of `plaintext` under the keystream seeded from `secret`:
/// every message restarts the keystream from the raw shared secret, so equal
/// plaintexts of equal length encrypt identically — a deliberate, documented
/// weakness of the protocol.
pub open spec fn ciphertext_spec(secret: u64, plaintext: Seq<u8>) -> Seq<u8> {
    xor_seq(plaintext, keystream_spec(secret, plaintext.len()))
}

/// Encrypt one message with a freshly generated keystream of matching length
/// and wrap the ciphertext in one frame, ready to send.
pub fn encrypt_message(secret: u64, plaintext: &[u8]) -> (r: Vec<u8>)
    requires
        plaintext@.len() <= u32::MAX,
    ensures
        r@ == frame_spec(ciphertext_spec(secret, plaintext@)),
{
    let ks = generate_keystream(secret, plaintext.len());
    let cipher = xor_cipher(plaintext, ks.as_slice());
    encode_frame(cipher.as_slice())
}

/// Decrypt one received frame payload with a freshly generated keystream of
/// its length, seeded from the same shared secret.
pub fn decrypt_payload(secret: u64, payload: &[u8]) -> (r: Vec<u8>)
    ensures
        r@ == xor_seq(payload@, keystream_spec(secret, payload@.len())),
{
    let ks = generate_keystream(secret, payload.len());
    xor_cipher(payload, ks.as_slice())
}

/// Law: a full chat turn round-trips.  The frame a sender builds decodes to
/// exactly the ciphertext, and decrypting that ciphertext with the same
/// shared secret restores the plaintext.
pub proof fn lemma_chat_round_trip(secret: u64, plaintext: Seq<u8>)
    requires
        plaintext.len() <= u32::MAX,
    ensures
        decode_frame_spec(frame_spec(ciphertext_spec(secret, plaintext))) == Some(
            ciphertext_spec(secret, plaintext),
        ),
        xor_seq(
            ciphertext_spec(secret, plaintext),
            keystream_spec(secret, ciphertext_spec(secret, plaintext).len()),
        ) == plaintext,
{
    lemma_frame_round_trip(ciphertext_spec(secret, plaintext));
    lemma_xor_involution(plaintext, keystream_spec(secret, plaintext.len()));
}

} // verus!
