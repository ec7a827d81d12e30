use base64::engine::general_purpose::STANDARD as B64;
use base64::Engine;
use shardscape::handshake::{Handshake, HandshakeError, Turn};
use shardscape::noise_transport::{
    check_private_key, decode_private_key, derive_psk, encode_frame, generate_private_key,
    FrameCodec, FrameError, KeyError, MAX_NOISE_MSG, MAX_PAYLOAD,
};

fn test_keys() -> (Vec<u8>, Vec<u8>, [u8; 32]) {
    let initiator = decode_private_key(&generate_private_key().unwrap()).unwrap();
    let responder = decode_private_key(&generate_private_key().unwrap()).unwrap();
    let psk = derive_psk("unit-test-cluster-secret");
    (initiator, responder, psk)
}

/// Passes one handshake message on.
fn pass(from: &mut Handshake, to: &mut Handshake) -> Result<(), HandshakeError> {
    let wire = from.send()?;
    assert_eq!(wire[0] as usize * 256 + wire[1] as usize, wire.len() - 2);
    to.receive(&wire[2..])
}

fn handshake(
    i_key: &[u8],
    i_psk: &[u8; 32],
    r_key: &[u8],
    r_psk: &[u8; 32],
) -> Result<(FrameCodec, FrameCodec), HandshakeError> {
    let mut i = Handshake::begin(true, i_key, i_psk)?;
    let mut r = Handshake::begin(false, r_key, r_psk)?;
    while i.turn() != Turn::Done {
        if i.turn() == Turn::Send {
            assert_eq!(r.turn(), Turn::Receive);
            pass(&mut i, &mut r)?;
        } else {
            assert_eq!(r.turn(), Turn::Send);
            pass(&mut r, &mut i)?;
        }
    }
    assert_eq!(r.turn(), Turn::Done);
    Ok((i.finish()?, r.finish()?))
}

/// The two ends of a connection.
fn connected_pair() -> (FrameCodec, FrameCodec) {
    let (i_key, r_key, psk) = test_keys();
    handshake(&i_key, &psk, &r_key, &psk).unwrap()
}

/// Moves at most `step` bytes of what `from` has to send.
fn carry(from: &mut FrameCodec, to: &mut FrameCodec, step: usize) {
    let n = from.pending().len().min(step);
    to.receive(&from.pending()[..n].to_vec());
    from.sent(n);
}

/// Sends all of `data`, `step` bytes of the wire at a time.
fn send(from: &mut FrameCodec, to: &mut FrameCodec, data: &[u8], step: usize) {
    from.seal(data).unwrap();
    while !from.pending().is_empty() {
        carry(from, to, step);
    }
}

/// Everything that can be read by now.
fn read_all(codec: &mut FrameCodec) -> Vec<u8> {
    let mut out = Vec::new();
    while codec.fill().unwrap() {
        out.extend(codec.take_plain(1000));
    }
    out
}

#[test]
fn handshake_then_simple_round_trip() {
    let (mut client, mut server) = connected_pair();
    send(&mut client, &mut server, b"hello over noise", 4096);
    assert_eq!(read_all(&mut server), b"hello over noise");
}

#[test]
fn wrong_psk_fails_handshake() {
    let (i_key, r_key, _) = test_keys();
    let psk_a = derive_psk("secret-a");
    let psk_b = derive_psk("secret-b");
    // At least one side must reject the mismatched PSK.
    assert!(
        handshake(&i_key, &psk_a, &r_key, &psk_b).is_err(),
        "handshake with mismatched PSK must fail"
    );
}

#[test]
fn large_multi_frame_payload_round_trips() {
    let (mut client, mut server) = connected_pair();
    // ~600 KB: forces ~10 noise frames. Use a non-trivial pattern so a
    // dropped/duplicated/reordered frame can't accidentally pass.
    let payload: Vec<u8> =
        (0..600_000u32).map(|i| (i.wrapping_mul(2654435761) >> 13) as u8).collect();
    send(&mut client, &mut server, &payload, 64 * 1024);
    assert!(read_all(&mut server) == payload, "payload corrupted across frame boundaries");
}

#[test]
fn round_trips_through_a_backpressured_stream() {
    let (mut client, mut server) = connected_pair();
    let payload: Vec<u8> = (0..200_000u32).map(|i| (i ^ (i >> 7)) as u8).collect();
    // Most of the wire goes out a few bytes at a time, with reads in between.
    client.seal(&payload).unwrap();
    let mut got = Vec::new();
    let mut calls = 0usize;
    while !client.pending().is_empty() {
        let step = if calls < 3000 { 7 } else { 5000 };
        carry(&mut client, &mut server, step);
        got.extend(read_all(&mut server));
        calls += 1;
    }
    assert!(got == payload, "data corrupted through backpressured stream");
}

#[test]
fn concurrent_bidirectional_traffic_does_not_corrupt() {
    let (mut a, mut b) = connected_pair();
    let a_to_b: Vec<u8> = (0..150_000u32).map(|i| (i.wrapping_mul(31)) as u8).collect();
    let b_to_a: Vec<u8> =
        (0..150_000u32).map(|i| (i.wrapping_mul(17).wrapping_add(5)) as u8).collect();
    a.seal(&a_to_b).unwrap();
    b.seal(&b_to_a).unwrap();
    let mut at_a = Vec::new();
    let mut at_b = Vec::new();
    while !a.pending().is_empty() || !b.pending().is_empty() {
        carry(&mut a, &mut b, 4000);
        carry(&mut b, &mut a, 3000);
        at_a.extend(read_all(&mut a));
        at_b.extend(read_all(&mut b));
    }
    assert!(at_a == b_to_a, "A received corrupted data");
    assert!(at_b == a_to_b, "B received corrupted data");
}

#[test]
fn many_small_messages_preserve_order_and_integrity() {
    let (mut client, mut server) = connected_pair();
    for i in 0u32..500 {
        send(&mut client, &mut server, format!("msg-{i:04}").as_bytes(), 4096);
    }
    let all = read_all(&mut server);
    // 500 messages * 8 bytes ("msg-0000") = 4000 bytes.
    assert_eq!(all.len(), 4000);
    let text = String::from_utf8(all).unwrap();
    for i in 0u32..500 {
        assert!(text.contains(&format!("msg-{i:04}")), "missing msg-{i:04}");
    }
    // Order must be preserved.
    assert!(text.starts_with("msg-0000msg-0001"), "ordering broken: {}", &text[..32]);
}

#[test]
fn decode_private_key_rejects_empty() {
    assert!(decode_private_key("").is_err(), "empty key must be rejected");
}

#[test]
fn decode_private_key_rejects_wrong_length() {
    // base64 of 3 bytes — valid base64, wrong key length.
    let short = B64.encode([1u8, 2, 3]);
    assert!(decode_private_key(&short).is_err(), "wrong-length key must be rejected");
    assert_eq!(decode_private_key(&short), Err(KeyError::WrongLength(3)));
}

#[test]
fn decode_private_key_rejects_non_base64() {
    assert!(decode_private_key("not valid base64 !!!").is_err());
    assert_eq!(decode_private_key("not valid base64 !!!"), Err(KeyError::NotBase64));
}

#[test]
fn generated_key_round_trips_through_decode() {
    let key = generate_private_key().unwrap();
    let decoded = decode_private_key(&key).unwrap();
    assert_eq!(decoded.len(), 32);
}

#[test]
fn derive_psk_is_deterministic_and_secret_dependent() {
    assert_eq!(derive_psk("same"), derive_psk("same"));
    assert_ne!(derive_psk("a"), derive_psk("b"));
    assert_eq!(derive_psk("x").len(), 32);
}

// ── frames ────────────────────────────────────────────────────────────────────

#[test]
fn the_key_is_what_the_text_encodes() {
    let raw: Vec<u8> = (0u8..32).collect();
    assert_eq!(decode_private_key(&B64.encode(&raw)), Ok(raw.clone()));
    // A key has one text: stray bits and missing padding are refused.
    let text = B64.encode(&raw);
    let stray = text.replace(&text[text.len() - 2..], "9=");
    assert_eq!(decode_private_key(&stray), Err(KeyError::NotBase64));
    assert_eq!(decode_private_key(text.trim_end_matches('=')), Err(KeyError::NotBase64));
}

#[test]
fn a_frame_leads_with_its_length() {
    assert_eq!(encode_frame(b"abc").unwrap(), b"\x00\x03abc");
    assert_eq!(encode_frame(&[]).unwrap(), b"\x00\x00");
    let full = encode_frame(&vec![9u8; 65535]).unwrap();
    assert_eq!(&full[..3], &[0xFF, 0xFF, 9]);
    assert_eq!(encode_frame(&vec![9u8; 65536]), Err(FrameError::TooLarge));
}

#[test]
fn a_payload_takes_as_many_frames_as_it_needs() {
    let (mut a, _) = connected_pair();
    // Length prefix and tag come on top of the payload.
    a.seal(&[]).unwrap();
    assert_eq!(a.pending().len(), 0);
    a.seal(&[1u8; 10]).unwrap();
    assert_eq!(a.pending().len(), 2 + 10 + 16);
    let n = a.pending().len();
    a.sent(n);
    a.seal(&vec![1u8; MAX_PAYLOAD]).unwrap();
    assert_eq!(a.pending().len(), 2 + MAX_NOISE_MSG);
    let n = a.pending().len();
    a.sent(n);
    a.seal(&vec![1u8; MAX_PAYLOAD + 1]).unwrap();
    assert_eq!(a.pending().len(), 2 + MAX_NOISE_MSG + 2 + 1 + 16);
}

#[test]
fn the_wire_does_not_carry_the_plain_text() {
    let (mut a, mut b) = connected_pair();
    a.seal(b"in the clear?").unwrap();
    let wire = a.pending().to_vec();
    assert!(!wire.windows(8).any(|w| w == b"in the c"));
    b.receive(&wire);
    assert_eq!(b.try_decrypt_one_frame().unwrap().unwrap(), b"in the clear?");
    assert_eq!(b.try_decrypt_one_frame(), Ok(None));
}

#[test]
fn a_damaged_frame_is_not_opened() {
    let (mut a, mut b) = connected_pair();
    a.seal(b"hello").unwrap();
    let mut wire = a.pending().to_vec();
    *wire.last_mut().unwrap() ^= 1;
    b.receive(&wire);
    assert_eq!(b.try_decrypt_one_frame(), Err(FrameError::NotOpened));
}

#[test]
fn a_stream_ends_well_only_between_frames() {
    let (mut a, mut b) = connected_pair();
    assert_eq!(b.end_of_stream(), Ok(()));
    a.seal(b"hello").unwrap();
    let wire = a.pending().to_vec();
    b.receive(&wire[..5]);
    assert_eq!(b.fill(), Ok(false));
    assert_eq!(b.end_of_stream(), Err(FrameError::UnexpectedEof));
    b.receive(&wire[5..]);
    assert_eq!(b.fill(), Ok(true));
    assert_eq!(b.take_plain(100), b"hello");
    assert_eq!(b.end_of_stream(), Ok(()));
}

#[test]
fn a_read_takes_no_more_than_it_may() {
    let (mut a, mut b) = connected_pair();
    send(&mut a, &mut b, b"abcdef", 100);
    assert_eq!(b.fill(), Ok(true));
    assert_eq!(b.take_plain(4), b"abcd");
    assert_eq!(b.fill(), Ok(true));
    assert_eq!(b.take_plain(4), b"ef");
    assert_eq!(b.fill(), Ok(false));
}

#[test]
fn a_decoded_key_has_32_bytes() {
    assert_eq!(check_private_key(None), Err(KeyError::NotBase64));
    assert_eq!(check_private_key(Some(vec![])), Err(KeyError::WrongLength(0)));
    assert_eq!(check_private_key(Some(vec![1; 31])), Err(KeyError::WrongLength(31)));
    assert_eq!(check_private_key(Some(vec![1; 33])), Err(KeyError::WrongLength(33)));
    assert_eq!(check_private_key(Some(vec![1; 32])), Ok(vec![1; 32]));
}

#[test]
fn a_handshake_goes_by_turns() {
    let (i_key, r_key, psk) = test_keys();
    let mut i = Handshake::begin(true, &i_key, &psk).unwrap();
    let mut r = Handshake::begin(false, &r_key, &psk).unwrap();
    assert_eq!((i.turn(), r.turn()), (Turn::Send, Turn::Receive));
    // Nobody speaks out of turn.
    assert_eq!(r.send(), Err(HandshakeError::NotSent));
    assert_eq!(i.receive(&[0; 48]), Err(HandshakeError::NotReceived));
    // A message that is too short is refused, and the turn stays.
    assert_eq!(r.receive(&[0; 31]), Err(HandshakeError::NotReceived));
    pass(&mut i, &mut r).unwrap();
    assert_eq!((i.turn(), r.turn()), (Turn::Receive, Turn::Send));
    assert_eq!(i.finish().err(), Some(HandshakeError::NotFinished));
}

#[test]
fn a_fresh_session_seals_what_it_is_given() {
    let (mut client, _) = connected_pair();
    for len in [0usize, 1, MAX_PAYLOAD, MAX_PAYLOAD + 1, 3 * MAX_PAYLOAD] {
        assert!(client.seal(&vec![7u8; len]).is_ok());
    }
}
