use locallink::protocol::{FRAME_CHANNEL_DATA, FRAME_PING, FRAME_SERVICE_DATA};
use locallink::transport::{
    auth_hmac, classify_inner_kind, derive_session_crypto, pong_payload, push_event, take_events, ApiEvent, BenchState, CryptoError,
    Handshake, HandshakeAction, HandshakeError, HandshakeInput, InnerKind, MAX_QUEUED_EVENTS,
};

fn psk() -> Vec<u8> {
    (0u8..32).collect()
}

fn nonce(fill: u8) -> Vec<u8> {
    vec![fill; 32]
}

#[test]
fn sessions_of_both_ends_exchange_frames() {
    let a = derive_session_crypto(&psk(), &nonce(1), &nonce(2), "alpha", "beta");
    let b = derive_session_crypto(&psk(), &nonce(2), &nonce(1), "beta", "alpha");

    let sealed = a.encrypt(5, FRAME_PING, b"hello").ok().expect("seal");
    let (kind, payload) = b.decrypt(5, &sealed).ok().expect("open");
    assert_eq!(kind, FRAME_PING);
    assert_eq!(payload, b"hello".to_vec());

    let back = b.encrypt(6, FRAME_SERVICE_DATA, b"").ok().expect("seal");
    let (kind, payload) = a.decrypt(6, &back).ok().expect("open");
    assert_eq!(kind, FRAME_SERVICE_DATA);
    assert!(payload.is_empty());
}

#[test]
fn frames_do_not_open_under_another_sequence_number_or_direction() {
    let a = derive_session_crypto(&psk(), &nonce(1), &nonce(2), "alpha", "beta");
    let b = derive_session_crypto(&psk(), &nonce(2), &nonce(1), "beta", "alpha");
    let sealed = a.encrypt(5, FRAME_PING, b"hello").ok().expect("seal");
    assert!(matches!(b.decrypt(6, &sealed), Err(CryptoError::DecryptionFailed)));
    assert!(matches!(a.decrypt(5, &sealed), Err(CryptoError::DecryptionFailed)));
}

#[test]
fn sessions_with_another_key_do_not_agree() {
    let a = derive_session_crypto(&psk(), &nonce(1), &nonce(2), "alpha", "beta");
    let other = derive_session_crypto(&vec![9u8; 32], &nonce(2), &nonce(1), "beta", "alpha");
    let sealed = a.encrypt(1, FRAME_PING, b"x").ok().expect("seal");
    assert!(other.decrypt(1, &sealed).is_err());
}

#[test]
fn auth_proof_is_32_bytes_and_depends_on_the_responder() {
    let one = auth_hmac(&psk(), &nonce(3), "alpha");
    let two = auth_hmac(&psk(), &nonce(3), "beta");
    assert_eq!(one.len(), 32);
    assert_ne!(one, two);
}

fn response_of(actions: Vec<HandshakeAction>) -> HandshakeInput {
    match actions.into_iter().next() {
        Some(HandshakeAction::SendAuthResponse { device_id, hmac_b64 }) => HandshakeInput::Response { device_id, hmac_b64 },
        _ => panic!("expected an auth response"),
    }
}

#[test]
fn handshake_authenticates_both_ends_and_registers() {
    let mut a = Handshake::new("alpha".to_string(), psk(), nonce(1), true, false);
    let mut b = Handshake::new("beta".to_string(), psk(), nonce(2), false, false);

    assert!(a.on_frame(HandshakeInput::Hello { device_id: "beta".to_string(), device_name: "Beta".to_string() }).ok().expect("hello").is_empty());
    assert!(b.on_frame(HandshakeInput::Hello { device_id: "alpha".to_string(), device_name: "Alpha".to_string() }).ok().expect("hello").is_empty());

    let a_answer = a.on_frame(HandshakeInput::Challenge { nonce_b64: b.challenge_nonce_b64() }).ok().expect("challenge");
    let b_answer = b.on_frame(HandshakeInput::Challenge { nonce_b64: a.challenge_nonce_b64() }).ok().expect("challenge");

    let a_done = a.on_frame(response_of(b_answer)).ok().expect("proof from beta");
    let b_done = b.on_frame(response_of(a_answer)).ok().expect("proof from alpha");

    assert!(a.auth_ok && b.auth_ok);
    assert!(a.registered && b.registered);
    assert_eq!(a.peer_name, "Beta");
    assert!(matches!(a_done.first(), Some(HandshakeAction::Register { peer_id, .. }) if peer_id == "beta"));
    assert!(matches!(b_done.first(), Some(HandshakeAction::Register { peer_id, .. }) if peer_id == "alpha"));

    let ca = a.crypto.as_ref().expect("session");
    let cb = b.crypto.as_ref().expect("session");
    let sealed = ca.encrypt(1, FRAME_CHANNEL_DATA, b"data").ok().expect("seal");
    let (kind, payload) = cb.decrypt(1, &sealed).ok().expect("open");
    assert_eq!(kind, FRAME_CHANNEL_DATA);
    assert_eq!(payload, b"data".to_vec());
}

#[test]
fn handshake_ignores_its_own_hello() {
    let mut a = Handshake::new("alpha".to_string(), psk(), nonce(1), true, false);
    let r = a.on_frame(HandshakeInput::Hello { device_id: "alpha".to_string(), device_name: "Me".to_string() });
    assert!(r.ok().expect("hello").is_empty());
    assert_eq!(a.peer_device_id, None);
    assert_eq!(a.peer_name, "unknown");
}

#[test]
fn handshake_refuses_bad_challenges_and_proofs() {
    let mut a = Handshake::new("alpha".to_string(), psk(), nonce(1), true, false);
    assert!(matches!(a.on_frame(HandshakeInput::Challenge { nonce_b64: "***".to_string() }), Err(HandshakeError::BadNonceEncoding)));
    assert!(matches!(a.on_frame(HandshakeInput::Challenge { nonce_b64: "AAAA".to_string() }), Err(HandshakeError::BadNonceLength)));
    assert!(matches!(
        a.on_frame(HandshakeInput::Response { device_id: "beta".to_string(), hmac_b64: "%%".to_string() }),
        Err(HandshakeError::BadProofEncoding)
    ));
    let mut wrong = Handshake::new("beta".to_string(), vec![7u8; 32], nonce(2), false, false);
    let answer = wrong.on_frame(HandshakeInput::Challenge { nonce_b64: a.challenge_nonce_b64() }).ok().expect("challenge");
    assert!(matches!(a.on_frame(response_of(answer)), Err(HandshakeError::AuthFailed)));
    assert!(!a.auth_ok);
}

fn event(n: u128) -> ApiEvent {
    ApiEvent {
        kind: "service_data".to_string(),
        peer_id: "p".to_string(),
        peer_name: "P".to_string(),
        service: "s".to_string(),
        channel_id: None,
        message_id: None,
        data_b64: None,
        reason: None,
        received_ms: n,
    }
}

#[test]
fn event_queue_keeps_the_newest_events() {
    let mut queue = Vec::new();
    for n in 0..(MAX_QUEUED_EVENTS as u128 + 3) {
        push_event(&mut queue, event(n));
    }
    assert_eq!(queue.len(), MAX_QUEUED_EVENTS);
    assert_eq!(queue[0].received_ms, 3);
    assert_eq!(queue[MAX_QUEUED_EVENTS - 1].received_ms, MAX_QUEUED_EVENTS as u128 + 2);
}

#[test]
fn inner_kinds_are_classified() {
    assert_eq!(classify_inner_kind(FRAME_PING), InnerKind::Ping);
    assert_eq!(classify_inner_kind(FRAME_CHANNEL_DATA), InnerKind::ChannelData);
    assert_eq!(classify_inner_kind(200), InnerKind::Unknown);
}

#[test]
fn pong_carries_the_ping_sequence_number() {
    assert_eq!(pong_payload(0x0a0b), vec![0, 0, 0, 0, 0, 0, 0x0a, 0x0b]);
}

#[test]
fn benchmark_counts_bytes_while_running() {
    let mut bench = BenchState::new();
    bench.data(10);
    bench.start();
    bench.data(10);
    bench.data(5);
    assert_eq!(bench.end(), Some(15));
    assert_eq!(bench.end(), None);
}

fn service_event(service: &str, n: u128) -> ApiEvent {
    let mut e = event(n);
    e.service = service.to_string();
    e
}

#[test]
fn take_events_takes_the_oldest_of_a_service() {
    let mut queue = vec![
        service_event("chat", 1),
        service_event("probe", 2),
        service_event("chat", 3),
        service_event("chat", 4),
    ];
    let taken = take_events(&mut queue, &Some("chat".to_string()), 2);
    assert_eq!(taken.iter().map(|e| e.received_ms).collect::<Vec<_>>(), vec![1, 3]);
    assert_eq!(queue.iter().map(|e| e.received_ms).collect::<Vec<_>>(), vec![2, 4]);
    let all = take_events(&mut queue, &None, 10);
    assert_eq!(all.len(), 2);
    assert!(queue.is_empty());
}

fn registers(actions: &[HandshakeAction]) -> usize {
    actions.iter().filter(|a| matches!(a, HandshakeAction::Register { .. })).count()
}

#[test]
fn handshake_registers_once_and_only_after_an_answered_challenge() {
    let mut a = Handshake::new("alpha".to_string(), psk(), nonce(1), false, false);
    let mut b = Handshake::new("beta".to_string(), psk(), nonce(2), false, false);
    // b's proof for a's nonce, before a has answered any challenge
    let b_answer = b.on_frame(HandshakeInput::Challenge { nonce_b64: a.challenge_nonce_b64() }).ok().expect("challenge");
    let early = a.on_frame(response_of(b_answer)).ok().expect("proof checks out");
    assert_eq!(registers(&early), 0);
    // once a answers b's challenge, the next valid proof registers b, once
    a.on_frame(HandshakeInput::Challenge { nonce_b64: b.challenge_nonce_b64() }).ok().expect("challenge");
    let again = b.on_frame(HandshakeInput::Challenge { nonce_b64: a.challenge_nonce_b64() }).ok().expect("challenge");
    let done = a.on_frame(response_of(again)).ok().expect("proof checks out");
    assert_eq!(registers(&done), 1);
    let third = b.on_frame(HandshakeInput::Challenge { nonce_b64: a.challenge_nonce_b64() }).ok().expect("challenge");
    let more = a.on_frame(response_of(third)).ok().expect("proof checks out");
    assert_eq!(registers(&more), 0);
}

#[test]
fn encrypted_frames_before_the_session_are_refused() {
    let a = Handshake::new("alpha".to_string(), psk(), nonce(1), true, false);
    assert!(matches!(a.open_frame(1, &[1, 2, 3]), Err(CryptoError::NoSession)));
}

#[test]
fn sequence_numbers_count_up_from_the_counter() {
    let mut counter = 7u64;
    assert_eq!(locallink::transport::next_seq(&mut counter), 7);
    assert_eq!(locallink::transport::next_seq(&mut counter), 8);
    assert_eq!(counter, 9);
}
