//! Secure sessions between two devices: the PSK handshake's proofs, the
//! session key both ends derive, and encryption of frames.
use crate::external::{
    aead_decrypt, aead_encrypt, aead_len_ok, aead_open, aead_seal, base64_decode, base64_decoding, base64_encode,
    base64_encoding, hmac_sha256, hmac_sha256_tag,
};
use crate::protocol::{
    u32_be, u64_be, ChannelClose, ChannelData, ChannelOpen, ServiceData, FRAME_BENCH_DATA, FRAME_BENCH_END,
    FRAME_BENCH_START, FRAME_CHANNEL_CLOSE, FRAME_CHANNEL_DATA, FRAME_CHANNEL_OPEN, FRAME_PING, FRAME_PONG,
    FRAME_SERVICE_DATA,
};
use crate::text::{lemma_seq_lt_asymmetric, lemma_seq_lt_total, seq_lt, str_eq, string_lt};
use vstd::prelude::*;
use vstd::string::StringSliceAdditionalSpecFns;

verus! {

/// Options of a core run.
pub struct RunOptions {
    pub bench: bool,
}

/// The key and the two directions of an established session: frames are
/// sent under `send_dir` and received under `recv_dir`.
pub struct SessionCrypto {
    key: [u8; 32],
    send_dir: u32,
    recv_dir: u32,
}

pub struct SessionView {
    pub key: Seq<u8>,
    pub send_dir: u32,
    pub recv_dir: u32,
}

impl View for SessionCrypto {
    type V = SessionView;

    closed spec fn view(&self) -> SessionView {
        SessionView { key: self.key@, send_dir: self.send_dir, recv_dir: self.recv_dir }
    }
}

impl Clone for SessionCrypto {
    fn clone(&self) -> (r: Self)
        ensures
            r@ == self@,
    {
        SessionCrypto { key: self.key, send_dir: self.send_dir, recv_dir: self.recv_dir }
    }
}

#[derive(Debug, Clone, Copy, PartialEq, Eq, Structural)]
pub enum CryptoError {
    EncryptionFailed,
    DecryptionFailed,
    EmptyFrame,
    NoSession,
}

/// The nonce of frame `seq` in direction `dir`: the direction, then the
/// sequence number, both big-endian.
pub open spec fn nonce_bytes(dir: u32, seq: u64) -> Seq<u8> {
    u32_be(dir) + u64_be(seq)
}

/// What a frame is authenticated with: its sequence number, big-endian.
pub open spec fn aad_bytes(seq: u64) -> Seq<u8> {
    u64_be(seq)
}

fn u64_be_vec(x: u64) -> (r: Vec<u8>)
    ensures
        r@ == u64_be(x),
{
    let mut v: Vec<u8> = Vec::new();
    v.push((x >> 56u64) as u8);
    v.push((x >> 48u64) as u8);
    v.push((x >> 40u64) as u8);
    v.push((x >> 32u64) as u8);
    v.push((x >> 24u64) as u8);
    v.push((x >> 16u64) as u8);
    v.push((x >> 8u64) as u8);
    v.push(x as u8);
    proof {
        assert(v@ =~= u64_be(x));
    }
    v
}

fn append_bytes(out: &mut Vec<u8>, bytes: &[u8])
    ensures
        final(out)@ == old(out)@ + bytes@,
{
    let ghost start = out@;
    let mut i: usize = 0;
    while i < bytes.len()
        invariant
            i <= bytes@.len(),
            out@ == start + bytes@.take(i as int),
        decreases bytes@.len() - i,
    {
        out.push(bytes[i]);
        proof {
            assert(bytes@.take(i + 1) == bytes@.take(i as int).push(bytes@[i as int]));
        }
        i = i + 1;
    }
    proof {
        assert(bytes@.take(bytes@.len() as int) == bytes@);
    }
}

impl SessionCrypto {
    /// The nonce of frame `seq` in direction `dir`.
    pub fn nonce(dir: u32, seq: u64) -> (r: Vec<u8>)
        ensures
            r@ == nonce_bytes(dir, seq),
            r@.len() == 12,
    {
        let mut n: Vec<u8> = Vec::new();
        n.push((dir >> 24u32) as u8);
        n.push((dir >> 16u32) as u8);
        n.push((dir >> 8u32) as u8);
        n.push(dir as u8);
        let s = u64_be_vec(seq);
        append_bytes(&mut n, s.as_slice());
        proof {
            assert(n@ =~= nonce_bytes(dir, seq));
        }
        n
    }

    /// Seals frame `seq`: the inner kind, then the payload, encrypted under
    /// the send direction and authenticated with the sequence number.
    pub fn encrypt(&self, seq: u64, inner_kind: u8, payload: &[u8]) -> (r: Result<Vec<u8>, CryptoError>)
        ensures
            ({
                let msg = seq![inner_kind] + payload@;
                &&& aead_len_ok(msg.len()) ==> (r matches Ok(c) && c@ == aead_seal(
                    self@.key,
                    nonce_bytes(self@.send_dir, seq),
                    aad_bytes(seq),
                    msg,
                ) && aead_open(self@.key, nonce_bytes(self@.send_dir, seq), aad_bytes(seq), c@) == Some(msg))
                &&& !aead_len_ok(msg.len()) ==> r == Err::<Vec<u8>, CryptoError>(CryptoError::EncryptionFailed)
            }),
    {
        let mut plaintext: Vec<u8> = Vec::new();
        plaintext.push(inner_kind);
        append_bytes(&mut plaintext, payload);
        proof {
            assert(plaintext@ =~= seq![inner_kind] + payload@);
        }
        let nonce = Self::nonce(self.send_dir, seq);
        let aad = u64_be_vec(seq);
        match aead_encrypt(self.key.as_slice(), nonce.as_slice(), aad.as_slice(), plaintext.as_slice()) {
            Ok(c) => Ok(c),
            Err(_) => Err(CryptoError::EncryptionFailed),
        }
    }

    /// Opens frame `seq` under the receive direction: its inner kind and
    /// payload. A frame that does not authenticate, or that holds nothing, is
    /// refused.
    pub fn decrypt(&self, seq: u64, ciphertext: &[u8]) -> (r: Result<(u8, Vec<u8>), CryptoError>)
        ensures
            match aead_open(self@.key, nonce_bytes(self@.recv_dir, seq), aad_bytes(seq), ciphertext@) {
                None => r == Err::<(u8, Vec<u8>), CryptoError>(CryptoError::DecryptionFailed),
                Some(p) => if p.len() == 0 {
                    r == Err::<(u8, Vec<u8>), CryptoError>(CryptoError::EmptyFrame)
                } else {
                    r matches Ok((k, v)) && k == p[0] && v@ == p.drop_first()
                },
            },
    {
        let nonce = Self::nonce(self.recv_dir, seq);
        let aad = u64_be_vec(seq);
        let plaintext = match aead_decrypt(self.key.as_slice(), nonce.as_slice(), aad.as_slice(), ciphertext) {
            Ok(p) => p,
            Err(_) => {
                return Err(CryptoError::DecryptionFailed);
            },
        };
        if plaintext.len() == 0 {
            return Err(CryptoError::EmptyFrame);
        }
        let mut rest: Vec<u8> = Vec::new();
        let mut i: usize = 1;
        while i < plaintext.len()
            invariant
                1 <= i <= plaintext@.len(),
                rest@ == plaintext@.subrange(1, i as int),
            decreases plaintext@.len() - i,
        {
            rest.push(plaintext[i]);
            proof {
                assert(plaintext@.subrange(1, i + 1) == plaintext@.subrange(1, i as int).push(plaintext@[i as int]));
            }
            i = i + 1;
        }
        proof {
            assert(plaintext@.drop_first() =~= plaintext@.subrange(1, plaintext@.len() as int));
        }
        Ok((plaintext[0], rest))
    }
}

fn label_bytes(label: &str) -> (r: Vec<u8>)
    ensures
        r@ == label.spec_bytes(),
{
    let b = label.as_bytes();
    let mut v: Vec<u8> = Vec::new();
    append_bytes(&mut v, b);
    proof {
        assert(v@ =~= label.spec_bytes());
    }
    v
}

/// The sequence number of the next encrypted frame sent: the counter's
/// value, after which the counter moves on by one, so no two frames of a
/// session share a number (and so a nonce).
pub fn next_seq(counter: &mut u64) -> (seq: u64)
    requires
        *old(counter) < u64::MAX,
    ensures
        seq == *old(counter),
        *final(counter) == *old(counter) + 1,
{
    let seq = *counter;
    *counter = seq + 1;
    seq
}

/// The proof a responder sends for the challenge `nonce`.
pub fn auth_hmac(psk: &[u8], nonce: &[u8], responder_device_id: &str) -> (r: Vec<u8>)
    ensures
        r@ == auth_proof(psk@, nonce@, responder_device_id@),
        r@.len() == 32,
{
    proof {
        crate::text::lemma_utf8_bytes(responder_device_id);
    }
    let mut msg = label_bytes("locallink-auth-response-v1");
    append_bytes(&mut msg, nonce);
    append_bytes(&mut msg, responder_device_id.as_bytes());
    let tag = hmac_sha256_tag(psk, msg.as_slice());
    let mut out: Vec<u8> = Vec::new();
    append_bytes(&mut out, tag.as_slice());
    proof {
        assert(out@ =~= tag@);
    }
    out
}

/// What the session key is derived from: a fixed label, then the two
/// device ids and the two nonces, the lower device id's first.
pub open spec fn session_input(my_id: &str, peer_id: &str, my_nonce: Seq<u8>, peer_nonce: Seq<u8>) -> Seq<u8> {
    let label = "locallink-session-key-v1".spec_bytes();
    if seq_lt(my_id@, peer_id@) {
        label + my_id.spec_bytes() + peer_id.spec_bytes() + my_nonce + peer_nonce
    } else {
        label + peer_id.spec_bytes() + my_id.spec_bytes() + peer_nonce + my_nonce
    }
}

/// The session of `my_id` with `peer_id`: the key is the HMAC of the
/// session input under the pre-shared key, and the lower device id sends in
/// direction 0 and receives in direction 1.
pub open spec fn session_of(
    psk: Seq<u8>,
    my_nonce: Seq<u8>,
    peer_nonce: Seq<u8>,
    my_id: &str,
    peer_id: &str,
) -> SessionView {
    let low = seq_lt(my_id@, peer_id@);
    SessionView {
        key: hmac_sha256(psk, session_input(my_id, peer_id, my_nonce, peer_nonce)),
        send_dir: if low { 0 } else { 1 },
        recv_dir: if low { 1 } else { 0 },
    }
}

/// Derives the session both ends of a connection share.
pub fn derive_session_crypto(
    psk: &[u8],
    my_nonce: &[u8],
    peer_nonce: &[u8],
    my_device_id: &str,
    peer_device_id: &str,
) -> (r: SessionCrypto)
    ensures
        r@ == session_of(psk@, my_nonce@, peer_nonce@, my_device_id, peer_device_id),
{
    let my = my_device_id.to_owned();
    let peer = peer_device_id.to_owned();
    let low = string_lt(&my, &peer);
    let mut msg = label_bytes("locallink-session-key-v1");
    if low {
        append_bytes(&mut msg, my_device_id.as_bytes());
        append_bytes(&mut msg, peer_device_id.as_bytes());
        append_bytes(&mut msg, my_nonce);
        append_bytes(&mut msg, peer_nonce);
    } else {
        append_bytes(&mut msg, peer_device_id.as_bytes());
        append_bytes(&mut msg, my_device_id.as_bytes());
        append_bytes(&mut msg, peer_nonce);
        append_bytes(&mut msg, my_nonce);
    }
    proof {
        assert(msg@ =~= session_input(my_device_id, peer_device_id, my_nonce@, peer_nonce@));
    }
    let key = hmac_sha256_tag(psk, msg.as_slice());
    SessionCrypto { key, send_dir: if low { 0 } else { 1 }, recv_dir: if low { 1 } else { 0 } }
}

/// Both ends of a connection between different devices derive the same key,
/// and each receives in the direction the other sends in.
pub proof fn lemma_sessions_agree(psk: Seq<u8>, a_nonce: Seq<u8>, b_nonce: Seq<u8>, a: &str, b: &str)
    requires
        a@ != b@,
    ensures
        ({
            let sa = session_of(psk, a_nonce, b_nonce, a, b);
            let sb = session_of(psk, b_nonce, a_nonce, b, a);
            &&& sa.key == sb.key
            &&& sa.send_dir == sb.recv_dir
            &&& sa.recv_dir == sb.send_dir
            &&& sa.send_dir != sa.recv_dir
        }),
{
    lemma_seq_lt_total(a@, b@);
    if seq_lt(a@, b@) {
        lemma_seq_lt_asymmetric(a@, b@);
    } else {
        lemma_seq_lt_asymmetric(b@, a@);
    }
}

/// What one end seals for a frame, the other end opens: when a frame's
/// ciphertext `c` opens under the sender's session and direction (as
/// `encrypt` ensures of what it returns), it opens to the same kind and
/// payload under the receiver's session.
pub proof fn lemma_frames_round_trip(
    psk: Seq<u8>,
    a_nonce: Seq<u8>,
    b_nonce: Seq<u8>,
    a: &str,
    b: &str,
    seq: u64,
    kind: u8,
    payload: Seq<u8>,
    c: Seq<u8>,
)
    requires
        a@ != b@,
        aead_open(
            session_of(psk, a_nonce, b_nonce, a, b).key,
            nonce_bytes(session_of(psk, a_nonce, b_nonce, a, b).send_dir, seq),
            aad_bytes(seq),
            c,
        ) == Some(seq![kind] + payload),
    ensures
        ({
            let sb = session_of(psk, b_nonce, a_nonce, b, a);
            let p = aead_open(sb.key, nonce_bytes(sb.recv_dir, seq), aad_bytes(seq), c);
            &&& p matches Some(m) && m.len() > 0 && m[0] == kind && m.drop_first() == payload
        }),
{
    lemma_sessions_agree(psk, a_nonce, b_nonce, a, b);
    let msg = seq![kind] + payload;
    assert(msg.drop_first() =~= payload);
}


/// The responder's proof for a challenge nonce.
pub open spec fn auth_proof(psk: Seq<u8>, nonce: Seq<u8>, responder: Seq<char>) -> Seq<u8> {
    hmac_sha256(psk, "locallink-auth-response-v1".spec_bytes() + nonce + crate::text::utf8_bytes(responder))
}

/// A plaintext frame of the handshake, as received and parsed.
pub enum HandshakeInput {
    Hello { device_id: String, device_name: String },
    Challenge { nonce_b64: String },
    Response { device_id: String, hmac_b64: String },
    Other { kind: u8 },
}

pub enum HandshakeInputView {
    Hello { device_id: Seq<char>, device_name: Seq<char> },
    Challenge { nonce_b64: Seq<char> },
    Response { device_id: Seq<char>, hmac_b64: Seq<char> },
    Other { kind: u8 },
}

impl View for HandshakeInput {
    type V = HandshakeInputView;

    open spec fn view(&self) -> HandshakeInputView {
        match self {
            HandshakeInput::Hello { device_id, device_name } => HandshakeInputView::Hello {
                device_id: device_id@,
                device_name: device_name@,
            },
            HandshakeInput::Challenge { nonce_b64 } => HandshakeInputView::Challenge { nonce_b64: nonce_b64@ },
            HandshakeInput::Response { device_id, hmac_b64 } => HandshakeInputView::Response {
                device_id: device_id@,
                hmac_b64: hmac_b64@,
            },
            HandshakeInput::Other { kind } => HandshakeInputView::Other { kind: *kind },
        }
    }
}

/// What the connection should do after a handshake frame.
pub enum HandshakeAction {
    SendAuthResponse { device_id: String, hmac_b64: String },
    Register { peer_id: String, peer_name: String },
    StartHeartbeat { peer_id: String, peer_name: String },
    StartBenchmark,
}

#[derive(Debug, Clone, Copy, PartialEq, Eq, Structural)]
pub enum HandshakeError {
    BadNonceEncoding,
    BadNonceLength,
    BadProofEncoding,
    AuthFailed,
}

/// One side of a connection while it authenticates the other.
pub struct Handshake {
    pub my_device_id: String,
    pub psk: Vec<u8>,
    pub my_nonce: Vec<u8>,
    pub outbound: bool,
    pub bench: bool,
    pub peer_name: String,
    pub peer_device_id: Option<String>,
    pub peer_nonce: Option<Vec<u8>>,
    pub auth_ok: bool,
    pub crypto: Option<SessionCrypto>,
    pub registered: bool,
    pub heartbeat_started: bool,
    pub benchmark_started: bool,
}

pub open spec fn opt_str(o: Option<String>) -> Option<Seq<char>> {
    match o {
        Some(s) => Some(s@),
        None => None,
    }
}

pub open spec fn opt_bytes(o: Option<Vec<u8>>) -> Option<Seq<u8>> {
    match o {
        Some(v) => Some(v@),
        None => None,
    }
}

pub open spec fn opt_session(o: Option<SessionCrypto>) -> Option<SessionView> {
    match o {
        Some(c) => Some(c@),
        None => None,
    }
}

/// The handshake as its frames have left it.
pub struct HandshakeView {
    pub peer_name: Seq<char>,
    pub peer_device_id: Option<Seq<char>>,
    pub peer_nonce: Option<Seq<u8>>,
    pub auth_ok: bool,
    pub crypto: Option<SessionView>,
    pub registered: bool,
    pub heartbeat_started: bool,
    pub benchmark_started: bool,
}

impl View for Handshake {
    type V = HandshakeView;

    open spec fn view(&self) -> HandshakeView {
        HandshakeView {
            peer_name: self.peer_name@,
            peer_device_id: opt_str(self.peer_device_id),
            peer_nonce: opt_bytes(self.peer_nonce),
            auth_ok: self.auth_ok,
            crypto: opt_session(self.crypto),
            registered: self.registered,
            heartbeat_started: self.heartbeat_started,
            benchmark_started: self.benchmark_started,
        }
    }
}

pub enum HandshakeActionView {
    SendAuthResponse { device_id: Seq<char>, hmac_b64: Seq<char> },
    Register { peer_id: Seq<char>, peer_name: Seq<char> },
    StartHeartbeat { peer_id: Seq<char>, peer_name: Seq<char> },
    StartBenchmark,
}

impl View for HandshakeAction {
    type V = HandshakeActionView;

    open spec fn view(&self) -> HandshakeActionView {
        match self {
            HandshakeAction::SendAuthResponse { device_id, hmac_b64 } => HandshakeActionView::SendAuthResponse {
                device_id: device_id@,
                hmac_b64: hmac_b64@,
            },
            HandshakeAction::Register { peer_id, peer_name } => HandshakeActionView::Register {
                peer_id: peer_id@,
                peer_name: peer_name@,
            },
            HandshakeAction::StartHeartbeat { peer_id, peer_name } => HandshakeActionView::StartHeartbeat {
                peer_id: peer_id@,
                peer_name: peer_name@,
            },
            HandshakeAction::StartBenchmark => HandshakeActionView::StartBenchmark,
        }
    }
}

pub open spec fn actions_view(s: Seq<HandshakeAction>) -> Seq<HandshakeActionView> {
    s.map_values(|a: HandshakeAction| a@)
}

/// After the peer's proof checked out: the state and the actions that
/// follow, given the state `h` once the proof was accepted.
pub open spec fn after_auth(hs: &Handshake, h: HandshakeView) -> (HandshakeView, Seq<HandshakeActionView>) {
    auth_followups(keys_of(hs), h)
}

/// What a handshake side holds fixed: its id, the key, its nonce, and
/// whether it dialled out and runs the benchmark.
pub struct HandshakeKeys {
    pub my_id: Seq<char>,
    pub psk: Seq<u8>,
    pub my_nonce: Seq<u8>,
    pub outbound: bool,
    pub bench: bool,
}

pub open spec fn keys_of(hs: &Handshake) -> HandshakeKeys {
    HandshakeKeys {
        my_id: hs.my_device_id@,
        psk: hs.psk@,
        my_nonce: hs.my_nonce@,
        outbound: hs.outbound,
        bench: hs.bench,
    }
}

/// `after_auth` for the fixed values `k`.
pub open spec fn auth_followups(k: HandshakeKeys, h: HandshakeView) -> (HandshakeView, Seq<HandshakeActionView>) {
    let h1 = if h.crypto is None && h.peer_device_id is Some && h.peer_nonce is Some {
        HandshakeView {
            crypto: Some(
                session_of_view(
                    k.psk,
                    k.my_nonce,
                    h.peer_nonce->Some_0,
                    k.my_id,
                    h.peer_device_id->Some_0,
                ),
            ),
            ..h
        }
    } else {
        h
    };
    let reg = h1.auth_ok && h1.crypto is Some && !h1.registered && h1.peer_device_id is Some;
    let h2 = if reg {
        HandshakeView { registered: true, ..h1 }
    } else {
        h1
    };
    let a2: Seq<HandshakeActionView> = if reg {
        seq![HandshakeActionView::Register { peer_id: h1.peer_device_id->Some_0, peer_name: h1.peer_name }]
    } else {
        Seq::empty()
    };
    let hb = h2.crypto is Some && !h2.heartbeat_started && h2.peer_device_id is Some;
    let h3 = if hb {
        HandshakeView { heartbeat_started: true, ..h2 }
    } else {
        h2
    };
    let a3 = if hb {
        a2.push(HandshakeActionView::StartHeartbeat { peer_id: h2.peer_device_id->Some_0, peer_name: h2.peer_name })
    } else {
        a2
    };
    let bm = h3.crypto is Some && k.outbound && k.bench && !h3.benchmark_started;
    let h4 = if bm {
        HandshakeView { benchmark_started: true, ..h3 }
    } else {
        h3
    };
    let a4 = if bm {
        a3.push(HandshakeActionView::StartBenchmark)
    } else {
        a3
    };
    (h4, a4)
}

/// One handshake frame: the state it leaves and the actions it asks for,
/// or its error, which leaves the state as it was.
pub open spec fn handshake_step(k: HandshakeKeys, h: HandshakeView, input: HandshakeInputView) -> (
    HandshakeView,
    Result<Seq<HandshakeActionView>, HandshakeError>,
) {
    match input {
        HandshakeInputView::Hello { device_id, device_name } => if device_id == k.my_id {
            (h, Ok(Seq::empty()))
        } else {
            (HandshakeView { peer_name: device_name, peer_device_id: Some(device_id), ..h }, Ok(Seq::empty()))
        },
        HandshakeInputView::Challenge { nonce_b64 } => match base64_decoding(nonce_b64) {
            None => (h, Err(HandshakeError::BadNonceEncoding)),
            Some(n) => if n.len() != 32 {
                (h, Err(HandshakeError::BadNonceLength))
            } else {
                (
                    HandshakeView { peer_nonce: Some(n), ..h },
                    Ok(
                        seq![
                            HandshakeActionView::SendAuthResponse {
                                device_id: k.my_id,
                                hmac_b64: base64_encoding(auth_proof(k.psk, n, k.my_id)),
                            },
                        ],
                    ),
                )
            },
        },
        HandshakeInputView::Response { device_id, hmac_b64 } => match base64_decoding(hmac_b64) {
            None => (h, Err(HandshakeError::BadProofEncoding)),
            Some(received) => if received != auth_proof(k.psk, k.my_nonce, device_id) {
                (h, Err(HandshakeError::AuthFailed))
            } else {
                let h1 = HandshakeView {
                    auth_ok: true,
                    peer_device_id: if h.peer_device_id is None {
                        Some(device_id)
                    } else {
                        h.peer_device_id
                    },
                    ..h
                };
                let (h4, acts) = auth_followups(k, h1);
                (h4, Ok(acts))
            },
        },
        HandshakeInputView::Other { .. } => (h, Ok(Seq::empty())),
    }
}

pub open spec fn actions_result_view(r: Result<Vec<HandshakeAction>, HandshakeError>) -> Result<
    Seq<HandshakeActionView>,
    HandshakeError,
> {
    match r {
        Ok(a) => Ok(actions_view(a@)),
        Err(e) => Err(e),
    }
}

/// The state a handshake starts in.
pub open spec fn fresh_handshake() -> HandshakeView {
    HandshakeView {
        peer_name: "unknown"@,
        peer_device_id: None,
        peer_nonce: None,
        auth_ok: false,
        crypto: None,
        registered: false,
        heartbeat_started: false,
        benchmark_started: false,
    }
}

/// The frames of a connection handled in order, up to the first one that
/// fails (which ends the connection): the final state and every action.
pub open spec fn run_handshake(k: HandshakeKeys, h: HandshakeView, inputs: Seq<HandshakeInputView>) -> (
    HandshakeView,
    Seq<HandshakeActionView>,
)
    decreases inputs.len(),
{
    if inputs.len() == 0 {
        (h, Seq::empty())
    } else {
        let (h1, r) = handshake_step(k, h, inputs[0]);
        match r {
            Err(_) => (h, Seq::empty()),
            Ok(a) => {
                let (h2, rest) = run_handshake(k, h1, inputs.drop_first());
                (h2, a + rest)
            },
        }
    }
}

/// How many times the actions register the peer.
pub open spec fn register_count(acts: Seq<HandshakeActionView>) -> nat
    decreases acts.len(),
{
    if acts.len() == 0 {
        0
    } else {
        (if acts[0] is Register {
            1nat
        } else {
            0nat
        }) + register_count(acts.drop_first())
    }
}

/// A response frame whose proof is the one this side's nonce asks for.
pub open spec fn verified_response(k: HandshakeKeys, input: HandshakeInputView) -> bool {
    input matches HandshakeInputView::Response { device_id, hmac_b64 } && base64_decoding(hmac_b64) == Some(
        auth_proof(k.psk, k.my_nonce, device_id),
    )
}

/// A challenge frame with a 32-byte nonce, which this side answers.
pub open spec fn answered_challenge(input: HandshakeInputView) -> bool {
    input matches HandshakeInputView::Challenge { nonce_b64 } && (base64_decoding(nonce_b64) matches Some(n)
        && n.len() == 32)
}

/// What holds of every state a handshake reaches: a registered peer was
/// authenticated and has a session; a session comes with the peer's nonce.
pub open spec fn handshake_sane(h: HandshakeView) -> bool {
    &&& h.registered ==> h.auth_ok && h.crypto is Some
    &&& h.crypto is Some ==> h.peer_nonce is Some
}

proof fn lemma_register_count_add(a: Seq<HandshakeActionView>, b: Seq<HandshakeActionView>)
    ensures
        register_count(a + b) == register_count(a) + register_count(b),
    decreases a.len(),
{
    if a.len() > 0 {
        assert((a + b).drop_first() =~= a.drop_first() + b);
        lemma_register_count_add(a.drop_first(), b);
    } else {
        assert(a + b =~= b);
    }
}

proof fn lemma_register_count_one(x: HandshakeActionView)
    ensures
        register_count(seq![x]) == if x is Register {
            1nat
        } else {
            0nat
        },
{
    assert(seq![x].drop_first() =~= Seq::<HandshakeActionView>::empty());
    assert(register_count(Seq::<HandshakeActionView>::empty()) == 0);
}

/// One frame keeps the handshake sane, registers the peer at most once in
/// all, and gains authentication or the peer's nonce only from a verified
/// response or an answered challenge.
proof fn lemma_handshake_step(k: HandshakeKeys, h: HandshakeView, input: HandshakeInputView)
    requires
        handshake_sane(h),
    ensures
        ({
            let (h1, r) = handshake_step(k, h, input);
            &&& handshake_sane(h1)
            &&& r is Err ==> h1 == h
            &&& r matches Ok(a) ==> register_count(a) + (if h.registered {
                1nat
            } else {
                0nat
            }) == (if h1.registered {
                1nat
            } else {
                0nat
            })
            &&& h1.auth_ok ==> h.auth_ok || verified_response(k, input)
            &&& h1.peer_nonce is Some ==> h.peer_nonce is Some || answered_challenge(input)
        }),
{
    let e: Seq<HandshakeActionView> = Seq::empty();
    assert(register_count(e) == 0);
    match input {
        HandshakeInputView::Challenge { nonce_b64 } => {
            if let Some(n) = base64_decoding(nonce_b64) {
                lemma_register_count_one(
                    HandshakeActionView::SendAuthResponse {
                        device_id: k.my_id,
                        hmac_b64: base64_encoding(auth_proof(k.psk, n, k.my_id)),
                    },
                );
            }
        },
        HandshakeInputView::Response { device_id, hmac_b64 } => {
            let h1 = HandshakeView {
                auth_ok: true,
                peer_device_id: if h.peer_device_id is None {
                    Some(device_id)
                } else {
                    h.peer_device_id
                },
                ..h
            };
            let hs = if h1.crypto is None && h1.peer_device_id is Some && h1.peer_nonce is Some {
                HandshakeView {
                    crypto: Some(
                        session_of_view(k.psk, k.my_nonce, h1.peer_nonce->Some_0, k.my_id, h1.peer_device_id->Some_0),
                    ),
                    ..h1
                }
            } else {
                h1
            };
            let reg = hs.auth_ok && hs.crypto is Some && !hs.registered && hs.peer_device_id is Some;
            let h2 = if reg {
                HandshakeView { registered: true, ..hs }
            } else {
                hs
            };
            let a2: Seq<HandshakeActionView> = if reg {
                seq![HandshakeActionView::Register { peer_id: hs.peer_device_id->Some_0, peer_name: hs.peer_name }]
            } else {
                Seq::empty()
            };
            if reg {
                lemma_register_count_one(a2[0]);
                assert(a2 =~= seq![a2[0]]);
            }
            let hb = h2.crypto is Some && !h2.heartbeat_started && h2.peer_device_id is Some;
            let hbeat = HandshakeActionView::StartHeartbeat { peer_id: h2.peer_device_id->Some_0, peer_name: h2.peer_name };
            let a3 = if hb {
                a2.push(hbeat)
            } else {
                a2
            };
            lemma_register_count_one(hbeat);
            lemma_register_count_add(a2, seq![hbeat]);
            assert(a2.push(hbeat) =~= a2 + seq![hbeat]);
            lemma_register_count_one(HandshakeActionView::StartBenchmark);
            lemma_register_count_add(a3, seq![HandshakeActionView::StartBenchmark]);
            assert(a3.push(HandshakeActionView::StartBenchmark) =~= a3 + seq![HandshakeActionView::StartBenchmark]);
        },
        _ => {},
    }
}

proof fn lemma_run_handshake(k: HandshakeKeys, h: HandshakeView, inputs: Seq<HandshakeInputView>)
    requires
        handshake_sane(h),
    ensures
        ({
            let (h2, acts) = run_handshake(k, h, inputs);
            &&& handshake_sane(h2)
            &&& register_count(acts) + (if h.registered {
                1nat
            } else {
                0nat
            }) == (if h2.registered {
                1nat
            } else {
                0nat
            })
            &&& h2.auth_ok ==> h.auth_ok || exists|j: int| 0 <= j < inputs.len() && verified_response(k, #[trigger] inputs[j])
            &&& h2.peer_nonce is Some ==> h.peer_nonce is Some || exists|j: int|
                0 <= j < inputs.len() && answered_challenge(#[trigger] inputs[j])
        }),
    decreases inputs.len(),
{
    let e: Seq<HandshakeActionView> = Seq::empty();
    assert(register_count(e) == 0);
    if inputs.len() > 0 {
        let (h1, r) = handshake_step(k, h, inputs[0]);
        lemma_handshake_step(k, h, inputs[0]);
        if let Ok(a) = r {
            let rest_in = inputs.drop_first();
            lemma_run_handshake(k, h1, rest_in);
            let (h2, rest) = run_handshake(k, h1, rest_in);
            lemma_register_count_add(a, rest);
            if h2.auth_ok && !h1.auth_ok {
                let j = choose|j: int| 0 <= j < rest_in.len() && verified_response(k, #[trigger] rest_in[j]);
                assert(inputs[j + 1] == rest_in[j]);
            }
            if h2.peer_nonce is Some && !(h1.peer_nonce is Some) {
                let j = choose|j: int| 0 <= j < rest_in.len() && answered_challenge(#[trigger] rest_in[j]);
                assert(inputs[j + 1] == rest_in[j]);
            }
        }
    }
}

/// The handshake's law across frames: over every run of a connection's
/// frames from the start, the peer is registered at most once, and only
/// after a response frame carried the proof this side's own nonce asks
/// for and a challenge frame with a 32-byte nonce was answered.
pub proof fn lemma_handshake_registers_after_proof(k: HandshakeKeys, inputs: Seq<HandshakeInputView>)
    ensures
        ({
            let (h, acts) = run_handshake(k, fresh_handshake(), inputs);
            &&& register_count(acts) <= 1
            &&& register_count(acts) == 1 ==> h.registered
            &&& register_count(acts) == 1 ==> exists|j: int|
                0 <= j < inputs.len() && verified_response(k, #[trigger] inputs[j])
            &&& register_count(acts) == 1 ==> exists|j: int|
                0 <= j < inputs.len() && answered_challenge(#[trigger] inputs[j])
        }),
{
    lemma_run_handshake(k, fresh_handshake(), inputs);
}

/// How many times the actions start the peer's heartbeat.
pub open spec fn heartbeat_count(acts: Seq<HandshakeActionView>) -> nat
    decreases acts.len(),
{
    if acts.len() == 0 {
        0
    } else {
        (if acts[0] is StartHeartbeat {
            1nat
        } else {
            0nat
        }) + heartbeat_count(acts.drop_first())
    }
}

proof fn lemma_heartbeat_count_add(a: Seq<HandshakeActionView>, b: Seq<HandshakeActionView>)
    ensures
        heartbeat_count(a + b) == heartbeat_count(a) + heartbeat_count(b),
    decreases a.len(),
{
    if a.len() > 0 {
        assert((a + b).drop_first() =~= a.drop_first() + b);
        lemma_heartbeat_count_add(a.drop_first(), b);
    } else {
        assert(a + b =~= b);
    }
}

proof fn lemma_heartbeat_count_one(x: HandshakeActionView)
    ensures
        heartbeat_count(seq![x]) == if x is StartHeartbeat {
            1nat
        } else {
            0nat
        },
{
    assert(seq![x].drop_first() =~= Seq::<HandshakeActionView>::empty());
    assert(heartbeat_count(Seq::<HandshakeActionView>::empty()) == 0);
}

/// The heartbeat goes with the session, whatever the connection's
/// direction: a handshake frame keeps "heartbeat started" equal to "session
/// exists", and the frame that creates the session asks, exactly once, to
/// start the heartbeat for the peer; no other frame asks for it.
pub proof fn lemma_session_starts_heartbeat(k: HandshakeKeys, h: HandshakeView, input: HandshakeInputView)
    requires
        h.heartbeat_started == (h.crypto is Some),
    ensures
        ({
            let (h1, r) = handshake_step(k, h, input);
            &&& h1.heartbeat_started == (h1.crypto is Some)
            &&& r matches Ok(a) ==> heartbeat_count(a) == (if h.crypto is None && h1.crypto is Some {
                1nat
            } else {
                0nat
            })
            &&& (h.crypto is None && h1.crypto is Some) ==> (r matches Ok(a) && a.contains(
                HandshakeActionView::StartHeartbeat { peer_id: h1.peer_device_id->Some_0, peer_name: h1.peer_name },
            ))
        }),
{
    let e: Seq<HandshakeActionView> = Seq::empty();
    assert(heartbeat_count(e) == 0);
    match input {
        HandshakeInputView::Challenge { nonce_b64 } => {
            if let Some(n) = base64_decoding(nonce_b64) {
                lemma_heartbeat_count_one(
                    HandshakeActionView::SendAuthResponse {
                        device_id: k.my_id,
                        hmac_b64: base64_encoding(auth_proof(k.psk, n, k.my_id)),
                    },
                );
            }
        },
        HandshakeInputView::Response { device_id, hmac_b64 } => {
            let h1 = HandshakeView {
                auth_ok: true,
                peer_device_id: if h.peer_device_id is None {
                    Some(device_id)
                } else {
                    h.peer_device_id
                },
                ..h
            };
            let hs = if h1.crypto is None && h1.peer_device_id is Some && h1.peer_nonce is Some {
                HandshakeView {
                    crypto: Some(
                        session_of_view(k.psk, k.my_nonce, h1.peer_nonce->Some_0, k.my_id, h1.peer_device_id->Some_0),
                    ),
                    ..h1
                }
            } else {
                h1
            };
            let reg = hs.auth_ok && hs.crypto is Some && !hs.registered && hs.peer_device_id is Some;
            let h2 = if reg {
                HandshakeView { registered: true, ..hs }
            } else {
                hs
            };
            let a2: Seq<HandshakeActionView> = if reg {
                seq![HandshakeActionView::Register { peer_id: hs.peer_device_id->Some_0, peer_name: hs.peer_name }]
            } else {
                Seq::empty()
            };
            if reg {
                lemma_heartbeat_count_one(a2[0]);
                assert(a2 =~= seq![a2[0]]);
            }
            let hb = h2.crypto is Some && !h2.heartbeat_started && h2.peer_device_id is Some;
            let hbeat = HandshakeActionView::StartHeartbeat { peer_id: h2.peer_device_id->Some_0, peer_name: h2.peer_name };
            let a3 = if hb {
                a2.push(hbeat)
            } else {
                a2
            };
            lemma_heartbeat_count_one(hbeat);
            lemma_heartbeat_count_add(a2, seq![hbeat]);
            assert(a2.push(hbeat) =~= a2 + seq![hbeat]);
            assert(hb ==> a3[a3.len() - 1] == hbeat);
            let bm = HandshakeActionView::StartBenchmark;
            lemma_heartbeat_count_one(bm);
            lemma_heartbeat_count_add(a3, seq![bm]);
            assert(a3.push(bm) =~= a3 + seq![bm]);
            if hb {
                assert(a3.push(bm)[a3.len() - 1] == hbeat);
            }
        },
        _ => {},
    }
}

/// Over every run of a connection's frames from the start, the heartbeat
/// is started exactly when a session was made, and then exactly once.
pub proof fn lemma_handshake_heartbeat_once(k: HandshakeKeys, inputs: Seq<HandshakeInputView>)
    ensures
        ({
            let (h, acts) = run_handshake(k, fresh_handshake(), inputs);
            &&& h.heartbeat_started == (h.crypto is Some)
            &&& heartbeat_count(acts) == (if h.crypto is Some {
                1nat
            } else {
                0nat
            })
        }),
{
    lemma_run_heartbeat(k, fresh_handshake(), inputs);
}

proof fn lemma_run_heartbeat(k: HandshakeKeys, h: HandshakeView, inputs: Seq<HandshakeInputView>)
    requires
        h.heartbeat_started == (h.crypto is Some),
    ensures
        ({
            let (h2, acts) = run_handshake(k, h, inputs);
            &&& h2.heartbeat_started == (h2.crypto is Some)
            &&& heartbeat_count(acts) + (if h.crypto is Some {
                1nat
            } else {
                0nat
            }) == (if h2.crypto is Some {
                1nat
            } else {
                0nat
            })
        }),
    decreases inputs.len(),
{
    let e: Seq<HandshakeActionView> = Seq::empty();
    assert(heartbeat_count(e) == 0);
    if inputs.len() > 0 {
        let (h1, r) = handshake_step(k, h, inputs[0]);
        lemma_session_starts_heartbeat(k, h, inputs[0]);
        lemma_handshake_step_keeps_session(k, h, inputs[0]);
        if let Ok(a) = r {
            let rest_in = inputs.drop_first();
            lemma_run_heartbeat(k, h1, rest_in);
            let (h2, rest) = run_handshake(k, h1, rest_in);
            lemma_heartbeat_count_add(a, rest);
        }
    }
}

/// A session, once made, stays.
proof fn lemma_handshake_step_keeps_session(k: HandshakeKeys, h: HandshakeView, input: HandshakeInputView)
    ensures
        h.crypto is Some ==> handshake_step(k, h, input).0.crypto is Some,
{
}

/// The session `derive_session_crypto` gives, on character sequences.
pub open spec fn session_of_view(
    psk: Seq<u8>,
    my_nonce: Seq<u8>,
    peer_nonce: Seq<u8>,
    my_id: Seq<char>,
    peer_id: Seq<char>,
) -> SessionView {
    let low = seq_lt(my_id, peer_id);
    SessionView {
        key: hmac_sha256(
            psk,
            if low {
                "locallink-session-key-v1".spec_bytes() + crate::text::utf8_bytes(my_id) + crate::text::utf8_bytes(peer_id)
                    + my_nonce + peer_nonce
            } else {
                "locallink-session-key-v1".spec_bytes() + crate::text::utf8_bytes(peer_id) + crate::text::utf8_bytes(my_id)
                    + peer_nonce + my_nonce
            },
        ),
        send_dir: if low { 0 } else { 1 },
        recv_dir: if low { 1 } else { 0 },
    }
}

proof fn lemma_session_of_view(psk: Seq<u8>, my_nonce: Seq<u8>, peer_nonce: Seq<u8>, my_id: &str, peer_id: &str)
    ensures
        session_of(psk, my_nonce, peer_nonce, my_id, peer_id) == session_of_view(psk, my_nonce, peer_nonce, my_id@, peer_id@),
{
    crate::text::lemma_utf8_bytes(my_id);
    crate::text::lemma_utf8_bytes(peer_id);
}

impl Handshake {
    /// A handshake about to start, with this device's nonce.
    pub fn new(my_device_id: String, psk: Vec<u8>, my_nonce: Vec<u8>, outbound: bool, bench: bool) -> (r: Self)
        ensures
            r.my_device_id@ == my_device_id@,
            r.psk@ == psk@,
            r.my_nonce@ == my_nonce@,
            r.outbound == outbound,
            r.bench == bench,
            r@ == fresh_handshake(),
            r@ == (HandshakeView {
                peer_name: "unknown"@,
                peer_device_id: None,
                peer_nonce: None,
                auth_ok: false,
                crypto: None,
                registered: false,
                heartbeat_started: false,
                benchmark_started: false,
            }),
    {
        Handshake {
            my_device_id,
            psk,
            my_nonce,
            outbound,
            bench,
            peer_name: "unknown".to_owned(),
            peer_device_id: None,
            peer_nonce: None,
            auth_ok: false,
            crypto: None,
            registered: false,
            heartbeat_started: false,
            benchmark_started: false,
        }
    }

    /// The challenge this side sends: its nonce in base64.
    pub fn challenge_nonce_b64(&self) -> (r: String)
        ensures
            r@ == base64_encoding(self.my_nonce@),
    {
        base64_encode(self.my_nonce.as_slice())
    }

    /// Handles one plaintext frame of the handshake.
    pub fn on_frame(&mut self, input: HandshakeInput) -> (r: Result<Vec<HandshakeAction>, HandshakeError>)
        ensures
            handshake_step(keys_of(old(self)), old(self)@, input@) == (final(self)@, actions_result_view(r)),
            final(self).my_device_id == old(self).my_device_id,
            final(self).psk == old(self).psk,
            final(self).my_nonce == old(self).my_nonce,
            final(self).outbound == old(self).outbound,
            final(self).bench == old(self).bench,
            match input {
                HandshakeInput::Hello { device_id, device_name } => if device_id@ == old(self).my_device_id@ {
                    final(self)@ == old(self)@ && r is Ok && r->Ok_0@.len() == 0
                } else {
                    &&& final(self)@ == (HandshakeView {
                        peer_name: device_name@,
                        peer_device_id: Some(device_id@),
                        ..old(self)@
                    })
                    &&& r is Ok && r->Ok_0@.len() == 0
                },
                HandshakeInput::Challenge { nonce_b64 } => match base64_decoding(nonce_b64@) {
                    None => final(self)@ == old(self)@ && r == Err::<Vec<HandshakeAction>, HandshakeError>(
                        HandshakeError::BadNonceEncoding,
                    ),
                    Some(n) => if n.len() != 32 {
                        final(self)@ == old(self)@ && r == Err::<Vec<HandshakeAction>, HandshakeError>(
                            HandshakeError::BadNonceLength,
                        )
                    } else {
                        &&& final(self)@ == (HandshakeView { peer_nonce: Some(n), ..old(self)@ })
                        &&& r matches Ok(a) && actions_view(a@) == seq![
                            HandshakeActionView::SendAuthResponse {
                                device_id: old(self).my_device_id@,
                                hmac_b64: base64_encoding(
                                    auth_proof(old(self).psk@, n, old(self).my_device_id@),
                                ),
                            },
                        ]
                    },
                },
                HandshakeInput::Response { device_id, hmac_b64 } => match base64_decoding(hmac_b64@) {
                    None => final(self)@ == old(self)@ && r == Err::<Vec<HandshakeAction>, HandshakeError>(
                        HandshakeError::BadProofEncoding,
                    ),
                    Some(received) => if received != auth_proof(old(self).psk@, old(self).my_nonce@, device_id@) {
                        final(self)@ == old(self)@ && r == Err::<Vec<HandshakeAction>, HandshakeError>(
                            HandshakeError::AuthFailed,
                        )
                    } else {
                        let h = HandshakeView {
                            auth_ok: true,
                            peer_device_id: if old(self)@.peer_device_id is None {
                                Some(device_id@)
                            } else {
                                old(self)@.peer_device_id
                            },
                            ..old(self)@
                        };
                        let (h4, acts) = after_auth(old(self), h);
                        final(self)@ == h4 && r is Ok && actions_view(r->Ok_0@) == acts
                    },
                },
                HandshakeInput::Other { .. } => final(self)@ == old(self)@ && r is Ok && r->Ok_0@.len() == 0,
            },
    {
        match input {
            HandshakeInput::Hello { device_id, device_name } => {
                if str_eq(device_id.as_str(), self.my_device_id.as_str()) {
                    return Ok(no_actions());
                }
                self.peer_name = device_name;
                self.peer_device_id = Some(device_id);
                Ok(no_actions())
            },
            HandshakeInput::Challenge { nonce_b64 } => {
                let nonce = match base64_decode(nonce_b64.as_str()) {
                    Ok(n) => n,
                    Err(_) => {
                        return Err(HandshakeError::BadNonceEncoding);
                    },
                };
                if nonce.len() != 32 {
                    return Err(HandshakeError::BadNonceLength);
                }
                let proof = auth_hmac(self.psk.as_slice(), nonce.as_slice(), self.my_device_id.as_str());
                self.peer_nonce = Some(nonce);
                let mut actions: Vec<HandshakeAction> = Vec::new();
                actions.push(
                    HandshakeAction::SendAuthResponse {
                        device_id: self.my_device_id.clone(),
                        hmac_b64: base64_encode(proof.as_slice()),
                    },
                );
                proof {
                    assert(actions_view(actions@) =~= seq![actions@[0]@]);
                }
                Ok(actions)
            },
            HandshakeInput::Response { device_id, hmac_b64 } => {
                let received = match base64_decode(hmac_b64.as_str()) {
                    Ok(v) => v,
                    Err(_) => {
                        return Err(HandshakeError::BadProofEncoding);
                    },
                };
                let expected = auth_hmac(self.psk.as_slice(), self.my_nonce.as_slice(), device_id.as_str());
                if !bytes_equal(received.as_slice(), expected.as_slice()) {
                    return Err(HandshakeError::AuthFailed);
                }
                self.auth_ok = true;
                if self.peer_device_id.is_none() {
                    self.peer_device_id = Some(device_id);
                }
                self.finish_auth()
            },
            HandshakeInput::Other { .. } => Ok(no_actions()),
        }
    }

    /// Opens an encrypted frame under the session, as `decrypt` does; an
    /// encrypted frame that comes before the session exists is refused.
    pub fn open_frame(&self, seq: u64, ciphertext: &[u8]) -> (r: Result<(u8, Vec<u8>), CryptoError>)
        ensures
            match self@.crypto {
                None => r == Err::<(u8, Vec<u8>), CryptoError>(CryptoError::NoSession),
                Some(sv) => match aead_open(sv.key, nonce_bytes(sv.recv_dir, seq), aad_bytes(seq), ciphertext@) {
                    None => r == Err::<(u8, Vec<u8>), CryptoError>(CryptoError::DecryptionFailed),
                    Some(p) => if p.len() == 0 {
                        r == Err::<(u8, Vec<u8>), CryptoError>(CryptoError::EmptyFrame)
                    } else {
                        r matches Ok((k, v)) && k == p[0] && v@ == p.drop_first()
                    },
                },
            },
    {
        match &self.crypto {
            Some(c) => c.decrypt(seq, ciphertext),
            None => Err(CryptoError::NoSession),
        }
    }

    /// Derives the session, registers the peer and starts the heartbeat and
    /// benchmark, each once, as far as the state allows.
    fn finish_auth(&mut self) -> (r: Result<Vec<HandshakeAction>, HandshakeError>)
        ensures
            final(self).my_device_id == old(self).my_device_id,
            final(self).psk == old(self).psk,
            final(self).my_nonce == old(self).my_nonce,
            final(self).outbound == old(self).outbound,
            final(self).bench == old(self).bench,
            final(self)@ == after_auth(old(self), old(self)@).0,
            r matches Ok(a) && actions_view(a@) == after_auth(old(self), old(self)@).1,
    {
        let ghost h0 = self@;
        if self.crypto.is_none() {
            match (&self.peer_device_id, &self.peer_nonce) {
                (Some(peer_id), Some(peer_nonce)) => {
                    let my_id = self.my_device_id.as_str();
                    let peer = peer_id.as_str();
                    let c = derive_session_crypto(
                        self.psk.as_slice(),
                        self.my_nonce.as_slice(),
                        peer_nonce.as_slice(),
                        my_id,
                        peer,
                    );
                    proof {
                        lemma_session_of_view(self.psk@, self.my_nonce@, peer_nonce@, my_id, peer);
                    }
                    self.crypto = Some(c);
                },
                _ => {},
            }
        }
        let mut actions: Vec<HandshakeAction> = Vec::new();
        if self.auth_ok && self.crypto.is_some() && !self.registered {
            match &self.peer_device_id {
                Some(peer_id) => {
                    self.registered = true;
                    actions.push(HandshakeAction::Register { peer_id: peer_id.clone(), peer_name: self.peer_name.clone() });
                },
                None => {},
            }
        }
        if self.crypto.is_some() && !self.heartbeat_started {
            match &self.peer_device_id {
                Some(peer_id) => {
                    self.heartbeat_started = true;
                    actions.push(
                        HandshakeAction::StartHeartbeat { peer_id: peer_id.clone(), peer_name: self.peer_name.clone() },
                    );
                },
                None => {},
            }
        }
        if self.crypto.is_some() && self.outbound && self.bench && !self.benchmark_started {
            self.benchmark_started = true;
            actions.push(HandshakeAction::StartBenchmark);
        }
        proof {
            let (h4, acts) = after_auth(old(self), h0);
            assert(actions_view(actions@) =~= acts);
        }
        Ok(actions)
    }
}

/// No actions.
fn no_actions() -> (r: Vec<HandshakeAction>)
    ensures
        actions_view(r@) == Seq::<HandshakeActionView>::empty(),
        r@.len() == 0,
{
    let r: Vec<HandshakeAction> = Vec::new();
    assert(actions_view(r@) =~= Seq::<HandshakeActionView>::empty());
    r
}

fn bytes_equal(a: &[u8], b: &[u8]) -> (r: bool)
    ensures
        r == (a@ == b@),
{
    if a.len() != b.len() {
        return false;
    }
    let mut i: usize = 0;
    while i < a.len()
        invariant
            a@.len() == b@.len(),
            i <= a@.len(),
            forall|k: int| 0 <= k < i ==> a@[k] == b@[k],
        decreases a@.len() - i,
    {
        if a[i] != b[i] {
            return false;
        }
        i = i + 1;
    }
    proof {
        assert(a@ =~= b@);
    }
    true
}


/// Something that happened on a connection, for the local API to hand out.
pub struct ApiEvent {
    pub kind: String,
    pub peer_id: String,
    pub peer_name: String,
    pub service: String,
    pub channel_id: Option<String>,
    pub message_id: Option<String>,
    pub data_b64: Option<String>,
    pub reason: Option<String>,
    pub received_ms: u128,
}

/// How many events the queue keeps; older ones are dropped.
pub const MAX_QUEUED_EVENTS: usize = 4096;

/// Adds an event to the queue, dropping the oldest beyond the limit.
pub fn push_event(queue: &mut Vec<ApiEvent>, event: ApiEvent)
    ensures
        ({
            let all = old(queue)@.push(event);
            final(queue)@ == if all.len() > MAX_QUEUED_EVENTS {
                all.skip(all.len() - MAX_QUEUED_EVENTS)
            } else {
                all
            }
        }),
{
    let ghost all = queue@.push(event);
    queue.push(event);
    let ghost mut dropped: int = 0;
    while queue.len() > MAX_QUEUED_EVENTS
        invariant
            0 <= dropped <= all.len(),
            queue@.len() == all.len() - dropped,
            queue@ == all.skip(dropped),
            all.len() > MAX_QUEUED_EVENTS ==> queue@.len() >= MAX_QUEUED_EVENTS,
            all.len() <= MAX_QUEUED_EVENTS ==> dropped == 0,
        decreases queue@.len(),
    {
        let ghost before = queue@;
        queue.remove(0);
        proof {
            assert(queue@ =~= before.remove(0));
            assert(all.skip(dropped + 1) =~= before.remove(0));
            dropped = dropped + 1;
        }
    }
    proof {
        if all.len() > MAX_QUEUED_EVENTS {
            assert(dropped == all.len() - MAX_QUEUED_EVENTS);
        } else {
            assert(dropped == 0);
            assert(all.skip(0) =~= all);
        }
    }
}

/// Whether a reader of `service` takes an event: any event when no service
/// is named.
pub open spec fn event_wanted(e: ApiEvent, service: Option<Seq<char>>) -> bool {
    match service {
        None => true,
        Some(s) => e.service@ == s,
    }
}

/// The events a reader takes from a queue, and those left, reading from the
/// front: up to `max` wanted events are taken, in order; the others stay,
/// in order.
pub open spec fn take_split(q: Seq<ApiEvent>, service: Option<Seq<char>>, max: nat) -> (Seq<ApiEvent>, Seq<ApiEvent>)
    decreases q.len(),
{
    if q.len() == 0 {
        (Seq::empty(), Seq::empty())
    } else {
        let (t, r) = take_split(q.drop_last(), service, max);
        let e = q.last();
        if event_wanted(e, service) && t.len() < max {
            (t.push(e), r)
        } else {
            (t, r.push(e))
        }
    }
}

/// Taking events loses none and makes none up: what is taken and what stays
/// are, together, the queue; at most `max` are taken, all of the service
/// asked for.
pub proof fn lemma_take_split(q: Seq<ApiEvent>, service: Option<Seq<char>>, max: nat)
    ensures
        take_split(q, service, max).0.len() <= max,
        take_split(q, service, max).0.len() + take_split(q, service, max).1.len() == q.len(),
        forall|i: int|
            0 <= i < take_split(q, service, max).0.len() ==> event_wanted(
                #[trigger] take_split(q, service, max).0[i],
                service,
            ),
        take_split(q, service, max).0.to_multiset().add(take_split(q, service, max).1.to_multiset())
            == q.to_multiset(),
    decreases q.len(),
{
    broadcast use vstd::seq_lib::group_to_multiset_ensures;

    if q.len() == 0 {
        assert(take_split(q, service, max).0.to_multiset() =~= vstd::multiset::Multiset::empty());
        assert(q.to_multiset() =~= vstd::multiset::Multiset::empty());
    } else {
        let p = q.drop_last();
        lemma_take_split(p, service, max);
        let (t, r) = take_split(p, service, max);
        let e = q.last();
        assert(q =~= p.push(e));
        if event_wanted(e, service) && t.len() < max {
            assert forall|i: int| 0 <= i < t.push(e).len() implies event_wanted(#[trigger] t.push(e)[i], service) by {
                if i < t.len() {
                    assert(t.push(e)[i] == t[i]);
                }
            }
            assert(t.push(e).to_multiset().add(r.to_multiset()) =~= q.to_multiset());
        } else {
            assert(t.to_multiset().add(r.push(e).to_multiset()) =~= q.to_multiset());
        }
    }
}

/// Takes up to `max_events` events of `service` (of any service when none
/// is named) off the shared queue, oldest first; the rest stay queued.
pub fn take_events(queue: &mut Vec<ApiEvent>, service: &Option<String>, max_events: usize) -> (taken: Vec<ApiEvent>)
    ensures
        (taken@, final(queue)@) == take_split(old(queue)@, opt_str(*service), max_events as nat),
{
    let ghost q0 = queue@;
    let ghost sv = opt_str(*service);
    let mut source: Vec<ApiEvent> = Vec::new();
    std::mem::swap(&mut source, queue);
    let mut taken: Vec<ApiEvent> = Vec::new();
    let mut rest: Vec<ApiEvent> = Vec::new();
    let ghost mut k: int = 0;
    proof {
        assert(q0.take(0) =~= Seq::<ApiEvent>::empty());
        assert(source@ =~= q0.skip(0));
    }
    while source.len() > 0
        invariant
            0 <= k <= q0.len(),
            source@ == q0.skip(k),
            sv == opt_str(*service),
            (taken@, rest@) == take_split(q0.take(k), sv, max_events as nat),
        decreases source@.len(),
    {
        let e = source.remove(0);
        proof {
            assert(e == q0[k]);
            assert(q0.take(k + 1).drop_last() =~= q0.take(k));
            assert(q0.take(k + 1).last() == e);
            assert(source@ =~= q0.skip(k + 1));
        }
        let wanted = match service {
            None => true,
            Some(s) => crate::text::str_eq(e.service.as_str(), s.as_str()),
        };
        if wanted && taken.len() < max_events {
            taken.push(e);
        } else {
            rest.push(e);
        }
        proof {
            k = k + 1;
        }
    }
    proof {
        assert(q0.take(k) =~= q0);
    }
    *queue = rest;
    taken
}

/// What an encrypted frame carries, by its inner kind.
#[derive(Clone, Copy, Debug, PartialEq, Eq, Structural)]
pub enum InnerKind {
    Ping,
    Pong,
    BenchStart,
    BenchData,
    BenchEnd,
    ServiceData,
    ChannelOpen,
    ChannelData,
    ChannelClose,
    Unknown,
}

pub open spec fn inner_kind_of(kind: u8) -> InnerKind {
    if kind == FRAME_PING {
        InnerKind::Ping
    } else if kind == FRAME_PONG {
        InnerKind::Pong
    } else if kind == FRAME_BENCH_START {
        InnerKind::BenchStart
    } else if kind == FRAME_BENCH_DATA {
        InnerKind::BenchData
    } else if kind == FRAME_BENCH_END {
        InnerKind::BenchEnd
    } else if kind == FRAME_SERVICE_DATA {
        InnerKind::ServiceData
    } else if kind == FRAME_CHANNEL_OPEN {
        InnerKind::ChannelOpen
    } else if kind == FRAME_CHANNEL_DATA {
        InnerKind::ChannelData
    } else if kind == FRAME_CHANNEL_CLOSE {
        InnerKind::ChannelClose
    } else {
        InnerKind::Unknown
    }
}

/// What the inner kind byte of a decrypted frame stands for.
pub fn classify_inner_kind(kind: u8) -> (r: InnerKind)
    ensures
        r == inner_kind_of(kind),
{
    if kind == FRAME_PING {
        InnerKind::Ping
    } else if kind == FRAME_PONG {
        InnerKind::Pong
    } else if kind == FRAME_BENCH_START {
        InnerKind::BenchStart
    } else if kind == FRAME_BENCH_DATA {
        InnerKind::BenchData
    } else if kind == FRAME_BENCH_END {
        InnerKind::BenchEnd
    } else if kind == FRAME_SERVICE_DATA {
        InnerKind::ServiceData
    } else if kind == FRAME_CHANNEL_OPEN {
        InnerKind::ChannelOpen
    } else if kind == FRAME_CHANNEL_DATA {
        InnerKind::ChannelData
    } else if kind == FRAME_CHANNEL_CLOSE {
        InnerKind::ChannelClose
    } else {
        InnerKind::Unknown
    }
}

/// The answer to a ping: a pong carrying the ping's sequence number.
pub fn pong_payload(seq: u64) -> (r: Vec<u8>)
    ensures
        r@ == u64_be(seq),
{
    u64_be_vec(seq)
}

/// A benchmark a peer runs on this connection.
pub struct BenchState {
    pub active: bool,
    pub bytes: u64,
}

impl BenchState {
    pub fn new() -> (r: Self)
        ensures
            !r.active && r.bytes == 0,
    {
        BenchState { active: false, bytes: 0 }
    }

    /// A benchmark starts: counting from zero.
    pub fn start(&mut self)
        ensures
            final(self).active && final(self).bytes == 0,
    {
        self.active = true;
        self.bytes = 0;
    }

    /// Benchmark data arrived: counted while a benchmark runs.
    pub fn data(&mut self, len: usize)
        requires
            old(self).active ==> old(self).bytes + len <= u64::MAX,
        ensures
            final(self).active == old(self).active,
            final(self).bytes == if old(self).active {
                (old(self).bytes + len) as u64
            } else {
                old(self).bytes
            },
    {
        if self.active {
            self.bytes = self.bytes + len as u64;
        }
    }

    /// The benchmark ended: the bytes counted, if one was running.
    pub fn end(&mut self) -> (r: Option<u64>)
        ensures
            !final(self).active,
            final(self).bytes == old(self).bytes,
            r == if old(self).active {
                Some(old(self).bytes)
            } else {
                None::<u64>
            },
    {
        if self.active {
            self.active = false;
            Some(self.bytes)
        } else {
            None
        }
    }
}

/// The event for a service message from a peer.
pub fn service_data_event(msg: ServiceData, peer_id: &str, peer_name: &str, received_ms: u128) -> (r: ApiEvent)
    ensures
        r.kind@ == "service_data"@,
        r.peer_id@ == peer_id@,
        r.peer_name@ == peer_name@,
        r.service@ == msg.service@,
        r.channel_id is None,
        opt_str(r.message_id) == Some(msg.message_id@),
        opt_str(r.data_b64) == Some(msg.data_b64@),
        r.reason is None,
        r.received_ms == received_ms,
{
    ApiEvent {
        kind: "service_data".to_owned(),
        peer_id: peer_id.to_owned(),
        peer_name: peer_name.to_owned(),
        service: msg.service,
        channel_id: None,
        message_id: Some(msg.message_id),
        data_b64: Some(msg.data_b64),
        reason: None,
        received_ms,
    }
}

/// The event for a channel a peer opened.
pub fn channel_open_event(msg: ChannelOpen, peer_id: &str, peer_name: &str, received_ms: u128) -> (r: ApiEvent)
    ensures
        r.kind@ == "channel_open"@,
        r.peer_id@ == peer_id@,
        r.peer_name@ == peer_name@,
        r.service@ == msg.service@,
        opt_str(r.channel_id) == Some(msg.channel_id@),
        r.message_id is None,
        r.data_b64 is None,
        r.reason is None,
        r.received_ms == received_ms,
{
    ApiEvent {
        kind: "channel_open".to_owned(),
        peer_id: peer_id.to_owned(),
        peer_name: peer_name.to_owned(),
        service: msg.service,
        channel_id: Some(msg.channel_id),
        message_id: None,
        data_b64: None,
        reason: None,
        received_ms,
    }
}

/// The event for data a peer sent on a channel.
pub fn channel_data_event(msg: ChannelData, peer_id: &str, peer_name: &str, received_ms: u128) -> (r: ApiEvent)
    ensures
        r.kind@ == "channel_data"@,
        r.peer_id@ == peer_id@,
        r.peer_name@ == peer_name@,
        r.service@ == msg.service@,
        opt_str(r.channel_id) == Some(msg.channel_id@),
        opt_str(r.message_id) == Some(msg.message_id@),
        opt_str(r.data_b64) == Some(msg.data_b64@),
        r.reason is None,
        r.received_ms == received_ms,
{
    ApiEvent {
        kind: "channel_data".to_owned(),
        peer_id: peer_id.to_owned(),
        peer_name: peer_name.to_owned(),
        service: msg.service,
        channel_id: Some(msg.channel_id),
        message_id: Some(msg.message_id),
        data_b64: Some(msg.data_b64),
        reason: None,
        received_ms,
    }
}

/// The event for a channel a peer closed.
pub fn channel_close_event(msg: ChannelClose, peer_id: &str, peer_name: &str, received_ms: u128) -> (r: ApiEvent)
    ensures
        r.kind@ == "channel_close"@,
        r.peer_id@ == peer_id@,
        r.peer_name@ == peer_name@,
        r.service@ == msg.service@,
        opt_str(r.channel_id) == Some(msg.channel_id@),
        opt_str(r.message_id) == Some(msg.message_id@),
        r.data_b64 is None,
        opt_str(r.reason) == Some(msg.reason@),
        r.received_ms == received_ms,
{
    ApiEvent {
        kind: "channel_close".to_owned(),
        peer_id: peer_id.to_owned(),
        peer_name: peer_name.to_owned(),
        service: msg.service,
        channel_id: Some(msg.channel_id),
        message_id: Some(msg.message_id),
        data_b64: None,
        reason: Some(msg.reason),
        received_ms,
    }
}

} // verus!
