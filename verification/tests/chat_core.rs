use streamchat::chat::{decrypt_payload, encrypt_message};
use streamchat::cipher::xor_cipher;
use streamchat::errors::ProtocolError;
use streamchat::frame::{decode_frame, decode_public_value, encode_frame, encode_public_value};
use streamchat::keystream::{generate_keystream, LCG};
use streamchat::modexp::mod_exp;
use streamchat::session::{DHSession, DH_G, DH_P};

#[test]
fn mod_exp_matches_big_integer_power() {
    assert_eq!(mod_exp(2, 10, 1000), 24);
    assert_eq!(mod_exp(5, 3, 13), 8);
    assert_eq!(mod_exp(3, 0, 7), 1);
    assert_eq!(mod_exp(10, 2, 7), 2);
    assert_eq!(mod_exp(0, 5, 9), 0);
    assert_eq!(
        mod_exp(0x123456789ABCDEF, 0xFEDCBA987654321, DH_P),
        0xAD6676F09819D2E6
    );
}

#[test]
fn mod_exp_symmetry_for_key_exchange() {
    let a: u64 = 123456789;
    let b: u64 = 987654321987654321;
    let ga = mod_exp(DH_G, a, DH_P);
    let gb = mod_exp(DH_G, b, DH_P);
    assert_eq!(mod_exp(ga, b, DH_P), mod_exp(gb, a, DH_P));
}

#[test]
fn keystream_length_and_prefix() {
    let short = generate_keystream(42, 5);
    let long = generate_keystream(42, 12);
    assert_eq!(short.len(), 5);
    assert_eq!(long.len(), 12);
    assert_eq!(&long[..5], &short[..]);
    assert_eq!(short, vec![10, 227, 226, 236, 152]);
}

#[test]
fn keystream_restarts_from_seed() {
    assert_eq!(generate_keystream(2, 3), generate_keystream(2, 3));
    assert_eq!(generate_keystream(2, 8), vec![0, 69, 142, 151, 227, 56, 24, 248]);
}

#[test]
fn lcg_cursor_steps() {
    let mut rng = LCG::new(2);
    assert_eq!(rng.next(), 0);
    assert_eq!(rng.next(), 69);
    assert_eq!(rng.next(), 142);
}

#[test]
fn xor_transform_is_an_involution() {
    let data = vec![0x00u8, 0x7F, 0xFF, 0x42, 0x13];
    let ks = vec![0xAAu8, 0x55, 0x00, 0xFF, 0x99, 0x77];
    let once = xor_cipher(&data, &ks);
    let twice = xor_cipher(&once, &ks);
    assert_eq!(twice, data);
}

#[test]
fn frame_round_trip_for_edge_lengths() {
    for len in [0usize, 1, 255, 65536] {
        let payload: Vec<u8> = (0..len).map(|i| (i % 251) as u8).collect();
        let framed = encode_frame(&payload);
        assert_eq!(framed.len(), payload.len() + 4);
        let (decoded, consumed) = decode_frame(&framed).unwrap();
        assert_eq!(decoded, payload);
        assert_eq!(consumed, framed.len());
    }
}

#[test]
fn truncated_frame_is_rejected_not_shortened() {
    // A declared length of ten followed by closure after three bytes.
    let wire = [10u8, 0, 0, 0, 1, 2, 3];
    assert_eq!(decode_frame(&wire), Err(ProtocolError::TruncatedPayload));
    // Closure before the length prefix is complete.
    let wire2 = [10u8, 0];
    assert_eq!(decode_frame(&wire2), Err(ProtocolError::TruncatedHeader));
}

#[test]
fn public_value_bytes_round_trip() {
    let v: u64 = 0xD87FA3E29184C7F3;
    let bytes = encode_public_value(v);
    assert_eq!(bytes.len(), 8);
    assert_eq!(bytes[0], 0xF3);
    assert_eq!(decode_public_value(&bytes), v);
}

#[test]
fn session_derives_public_and_shared_values() {
    let mut s = DHSession::with_private_key(7);
    assert_eq!(s.public_key, 0x80);
    assert_eq!(s.shared_secret, None);
    s.compute_shared_secret(2);
    assert_eq!(s.shared_secret, Some(mod_exp(2, 7, DH_P)));
}

#[test]
fn fresh_session_is_well_formed() {
    let s = DHSession::new();
    assert_eq!(s.public_key, mod_exp(DH_G, s.private_key, DH_P));
    assert_eq!(s.shared_secret, None);
}

#[test]
fn end_to_end_private_exponent_one() {
    // Both peers fix their private exponent to one.
    let mut alice = DHSession::with_private_key(1);
    let mut bob = DHSession::with_private_key(1);
    assert_eq!(alice.public_key, DH_G);
    assert_eq!(bob.public_key, DH_G);
    alice.compute_shared_secret(bob.public_key);
    bob.compute_shared_secret(alice.public_key);
    assert_eq!(alice.shared_secret, Some(2));
    assert_eq!(bob.shared_secret, Some(2));

    let frame = encrypt_message(2, b"hi");
    // The ciphertext is "hi" XOR keystream(2, 2) = [0, 69].
    assert_eq!(frame, vec![2, 0, 0, 0, 104, 44]);
    let (payload, consumed) = decode_frame(&frame).unwrap();
    assert_eq!(consumed, 6);
    let plain = decrypt_payload(2, &payload);
    assert_eq!(plain, b"hi".to_vec());
}

#[test]
fn decrypt_restores_any_encrypted_message() {
    let secret: u64 = 0xDEADBEEF12345678;
    let message = b"attack at dawn".to_vec();
    let frame = encrypt_message(secret, &message);
    let (payload, _) = decode_frame(&frame).unwrap();
    assert_eq!(decrypt_payload(secret, &payload), message);
}
