//! The wire protocol between LocalLink devices: constants, message shapes
//! and the framing of the TCP stream.
use vstd::prelude::*;

verus! {

pub const APP_NAME: &'static str = "locallink";

pub const PROTOCOL_VERSION: u32 = 1;

pub const DISCOVERY_PORT: u16 = 47777;

pub const TCP_PORT: u16 = 47800;

pub const MULTICAST_ADDR: &'static str = "ff02::114";

pub const FRAME_HELLO: u8 = 1;

pub const FRAME_PING: u8 = 2;

pub const FRAME_PONG: u8 = 3;

pub const FRAME_BENCH_START: u8 = 4;

pub const FRAME_BENCH_DATA: u8 = 5;

pub const FRAME_BENCH_END: u8 = 6;

pub const FRAME_AUTH_CHALLENGE: u8 = 7;

pub const FRAME_AUTH_RESPONSE: u8 = 8;

pub const FRAME_ENCRYPTED: u8 = 9;

pub const FRAME_SERVICE_DATA: u8 = 10;

pub const FRAME_CHANNEL_OPEN: u8 = 11;

pub const FRAME_CHANNEL_DATA: u8 = 12;

pub const FRAME_CHANNEL_CLOSE: u8 = 13;

/// The largest payload a frame may carry: 8 MiB and 1 KiB.
pub const MAX_FRAME_PAYLOAD: usize = 8389632;

/// What a device announces on the network.
pub struct DiscoveryMessage {
    pub app: String,
    pub version: u32,
    pub kind: String,
    pub device_id: String,
    pub device_name: String,
    pub tcp_port: u16,
    pub macs: Vec<String>,
}

/// The first message of a connection.
pub struct HelloPayload {
    pub app: String,
    pub version: u32,
    pub device_id: String,
    pub device_name: String,
}

pub struct AuthChallenge {
    pub nonce_b64: String,
}

pub struct AuthResponse {
    pub device_id: String,
    pub hmac_b64: String,
}

pub struct ServiceData {
    pub service: String,
    pub message_id: String,
    pub data_b64: String,
}

pub struct ChannelOpen {
    pub service: String,
    pub channel_id: String,
}

pub struct ChannelData {
    pub service: String,
    pub channel_id: String,
    pub message_id: String,
    pub data_b64: String,
}

pub struct ChannelClose {
    pub service: String,
    pub channel_id: String,
    pub message_id: String,
    pub reason: String,
}

/// One frame of the stream: its kind, sequence number and payload.
pub struct Frame {
    pub kind: u8,
    pub seq: u64,
    pub payload: Vec<u8>,
}

/// The fixed part of a frame on the wire: kind, sequence number, payload
/// length.
pub struct FrameHeader {
    pub kind: u8,
    pub seq: u64,
    pub len: usize,
}

#[derive(Debug, Clone, Copy, PartialEq, Eq, Structural)]
pub enum FrameError {
    PayloadTooLarge,
    FrameTooLarge,
}

/// The eight bytes of `x`, most significant first (`u64::to_be_bytes`).
pub open spec fn u64_be(x: u64) -> Seq<u8> {
    seq![
        (x >> 56u64) as u8,
        (x >> 48u64) as u8,
        (x >> 40u64) as u8,
        (x >> 32u64) as u8,
        (x >> 24u64) as u8,
        (x >> 16u64) as u8,
        (x >> 8u64) as u8,
        x as u8,
    ]
}

/// The four bytes of `x`, most significant first (`u32::to_be_bytes`).
pub open spec fn u32_be(x: u32) -> Seq<u8> {
    seq![(x >> 24u32) as u8, (x >> 16u32) as u8, (x >> 8u32) as u8, x as u8]
}

/// The number eight bytes give, most significant first (`u64::from_be_bytes`).
pub open spec fn be_u64(b: Seq<u8>) -> u64 {
    ((b[0] as u64) << 56u64) | ((b[1] as u64) << 48u64) | ((b[2] as u64) << 40u64) | ((b[3] as u64) << 32u64) | ((
    b[4] as u64) << 24u64) | ((b[5] as u64) << 16u64) | ((b[6] as u64) << 8u64) | (b[7] as u64)
}

/// The number four bytes give, most significant first (`u32::from_be_bytes`).
pub open spec fn be_u32(b: Seq<u8>) -> u32 {
    ((b[0] as u32) << 24u32) | ((b[1] as u32) << 16u32) | ((b[2] as u32) << 8u32) | (b[3] as u32)
}

/// A frame on the wire: the kind byte, the sequence number and the payload
/// length in big-endian order, then the payload.
pub open spec fn frame_bytes(kind: u8, seq: u64, payload: Seq<u8>) -> Seq<u8> {
    seq![kind] + u64_be(seq) + u32_be(payload.len() as u32) + payload
}

proof fn lemma_u64_be_round_trip(x: u64)
    ensures
        be_u64(u64_be(x)) == x,
{
    let b = u64_be(x);
    assert(((((x >> 56u64) as u8) as u64) << 56u64) | ((((x >> 48u64) as u8) as u64) << 48u64) | ((((x >> 40u64) as u8) as u64)
        << 40u64) | ((((x >> 32u64) as u8) as u64) << 32u64) | ((((x >> 24u64) as u8) as u64) << 24u64) | ((((x >> 16u64)
        as u8) as u64) << 16u64) | ((((x >> 8u64) as u8) as u64) << 8u64) | ((x as u8) as u64) == x) by (bit_vector);
}

proof fn lemma_u32_be_round_trip(x: u32)
    ensures
        be_u32(u32_be(x)) == x,
{
    assert(((((x >> 24u32) as u8) as u32) << 24u32) | ((((x >> 16u32) as u8) as u32) << 16u32) | ((((x >> 8u32) as u8) as u32)
        << 8u32) | ((x as u8) as u32) == x) by (bit_vector);
}

/// The bytes of a frame, refused when the payload is too large.
pub fn encode_frame(kind: u8, seq: u64, payload: &[u8]) -> (r: Result<Vec<u8>, FrameError>)
    ensures
        payload@.len() > MAX_FRAME_PAYLOAD ==> r == Err::<Vec<u8>, FrameError>(FrameError::PayloadTooLarge),
        payload@.len() <= MAX_FRAME_PAYLOAD ==> (r matches Ok(v) && v@ == frame_bytes(kind, seq, payload@)),
{
    if payload.len() > MAX_FRAME_PAYLOAD {
        return Err(FrameError::PayloadTooLarge);
    }
    let len = payload.len() as u32;
    let mut out: Vec<u8> = Vec::new();
    out.push(kind);
    out.push((seq >> 56u64) as u8);
    out.push((seq >> 48u64) as u8);
    out.push((seq >> 40u64) as u8);
    out.push((seq >> 32u64) as u8);
    out.push((seq >> 24u64) as u8);
    out.push((seq >> 16u64) as u8);
    out.push((seq >> 8u64) as u8);
    out.push(seq as u8);
    out.push((len >> 24u32) as u8);
    out.push((len >> 16u32) as u8);
    out.push((len >> 8u32) as u8);
    out.push(len as u8);
    let ghost head = out@;
    let mut i: usize = 0;
    while i < payload.len()
        invariant
            head == seq![kind] + u64_be(seq) + u32_be(len),
            i <= payload@.len(),
            out@ == head + payload@.take(i as int),
        decreases payload@.len() - i,
    {
        out.push(payload[i]);
        proof {
            assert(payload@.take(i + 1) == payload@.take(i as int).push(payload@[i as int]));
        }
        i = i + 1;
    }
    proof {
        assert(payload@.take(payload@.len() as int) == payload@);
    }
    Ok(out)
}

/// Reads the 13-byte header of a frame; a payload length above the limit
/// is refused.
pub fn decode_frame_header(header: &[u8]) -> (r: Result<FrameHeader, FrameError>)
    requires
        header@.len() == 13,
    ensures
        ({
            let len = be_u32(header@.subrange(9, 13));
            if len > MAX_FRAME_PAYLOAD {
                r == Err::<FrameHeader, FrameError>(FrameError::FrameTooLarge)
            } else {
                r matches Ok(h) && h.kind == header@[0] && h.seq == be_u64(header@.subrange(1, 9)) && h.len == len
            }
        }),
{
    let seq: u64 = ((header[1] as u64) << 56u64) | ((header[2] as u64) << 48u64) | ((header[3] as u64) << 40u64) | ((
    header[4] as u64) << 32u64) | ((header[5] as u64) << 24u64) | ((header[6] as u64) << 16u64) | ((header[7] as u64)
        << 8u64) | (header[8] as u64);
    let len: u32 = ((header[9] as u32) << 24u32) | ((header[10] as u32) << 16u32) | ((header[11] as u32) << 8u32) | (
    header[12] as u32);
    proof {
        let s = header@.subrange(1, 9);
        assert(s[0] == header@[1] && s[1] == header@[2] && s[2] == header@[3] && s[3] == header@[4]);
        assert(s[4] == header@[5] && s[5] == header@[6] && s[6] == header@[7] && s[7] == header@[8]);
        let l = header@.subrange(9, 13);
        assert(l[0] == header@[9] && l[1] == header@[10] && l[2] == header@[11] && l[3] == header@[12]);
    }
    if len as usize > MAX_FRAME_PAYLOAD {
        return Err(FrameError::FrameTooLarge);
    }
    Ok(FrameHeader { kind: header[0], seq, len: len as usize })
}

/// Framing round trip: the header of an encoded frame gives back its kind,
/// sequence number and payload length, and the payload follows it.
pub proof fn lemma_frame_round_trip(kind: u8, seq: u64, payload: Seq<u8>)
    requires
        payload.len() <= MAX_FRAME_PAYLOAD,
    ensures
        ({
            let b = frame_bytes(kind, seq, payload);
            &&& b.len() == 13 + payload.len()
            &&& b[0] == kind
            &&& be_u64(b.subrange(1, 9)) == seq
            &&& be_u32(b.subrange(9, 13)) == payload.len()
            &&& b.subrange(13, b.len() as int) == payload
        }),
{
    let b = frame_bytes(kind, seq, payload);
    assert(b.subrange(1, 9) =~= u64_be(seq));
    assert(b.subrange(9, 13) =~= u32_be(payload.len() as u32));
    assert(b.subrange(13, b.len() as int) =~= payload);
    lemma_u64_be_round_trip(seq);
    lemma_u32_be_round_trip(payload.len() as u32);
    assert((payload.len() as u32) as nat == payload.len());
}

} // verus!
