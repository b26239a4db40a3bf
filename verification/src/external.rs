//! The calls this library makes into outside crates. Each item states only
//! what the called code's source or documentation shows; the specs of what
//! they compute come with the facts proved of them (such as that base64
//! decoding undoes encoding).
use base64::Engine;
use chacha20poly1305::aead::Aead;
use chacha20poly1305::KeyInit;
use hmac::Mac;
use rand::RngCore;
use vstd::prelude::*;

verus! {

/// The lowercase hexadecimal digit of a value below sixteen.
pub open spec fn hex_digit(n: int) -> char {
    if n < 10 {
        (48 + n) as char
    } else {
        (87 + n) as char
    }
}

/// Two lowercase hexadecimal digits per byte, high digit first.
pub open spec fn hex_text(bytes: Seq<u8>) -> Seq<char>
    decreases bytes.len(),
{
    if bytes.len() == 0 {
        Seq::empty()
    } else {
        hex_text(bytes.drop_last()) + seq![hex_digit(bytes.last() as int / 16), hex_digit(bytes.last() as int % 16)]
    }
}

/// Sixteen random bytes with the version 4 and RFC 4122 variant bits set.
pub open spec fn v4_bytes(b: Seq<u8>) -> Seq<u8> {
    b.update(6, (b[6] & 0x0f) | 0x40).update(8, (b[8] & 0x3f) | 0x80)
}

/// The hyphenated lowercase text of the version 4 UUID made from sixteen
/// random bytes: 8, 4, 4, 4 and 12 hex digits, separated by hyphens.
pub open spec fn uuid_v4_text(bytes: Seq<u8>) -> Seq<char> {
    let h = hex_text(v4_bytes(bytes));
    h.subrange(0, 8) + "-"@ + h.subrange(8, 12) + "-"@ + h.subrange(12, 16) + "-"@ + h.subrange(16, 20) + "-"@
        + h.subrange(20, 32)
}

/// Calls `uuid::Builder::from_random_bytes`, `into_uuid` and `to_string`:
/// the bytes get the version and variant bits, and the UUID is written in
/// its hyphenated lowercase form.
#[verifier::external_body]
pub(crate) fn uuid_v4_string(bytes: &[u8]) -> (r: String)
    requires
        bytes@.len() == 16,
    ensures
        r@ == uuid_v4_text(bytes@),
{
    let mut b = [0u8; 16];
    b.copy_from_slice(bytes);
    uuid::Builder::from_random_bytes(b).into_uuid().to_string()
}

/// The error the operating system's random source gives (`rand::Error`).
#[verifier::external_type_specification]
#[verifier::external_body]
pub struct ExRandError(rand::Error);

/// Fills `n` bytes from `rand::rngs::OsRng` with `try_fill_bytes`, the
/// operating system's random source, or gives its error. Only the length of
/// the bytes is stated.
#[verifier::external_body]
pub(crate) fn os_random_bytes(n: usize) -> (r: Result<Vec<u8>, rand::Error>)
    requires
        n <= 0x7fff_ffff,
    ensures
        r matches Ok(v) ==> v@.len() == n,
{
    let mut buf = vec![0u8; n];
    match rand::rngs::OsRng.try_fill_bytes(&mut buf) {
        Ok(()) => Ok(buf),
        Err(e) => Err(e),
    }
}

/// The error `base64` gives for text that is not a standard encoding.
#[verifier::external_type_specification]
#[verifier::external_body]
pub struct ExDecodeError(base64::DecodeError);

/// The character of a six-bit value in the standard base64 alphabet:
/// `A`-`Z`, `a`-`z`, `0`-`9`, `+`, `/`.
pub open spec fn base64_digit(n: int) -> char {
    if n < 26 {
        (65 + n) as char
    } else if n < 52 {
        (71 + n) as char
    } else if n < 62 {
        (n - 4) as char
    } else if n == 62 {
        '+'
    } else {
        '/'
    }
}

/// The standard, padded base64 encoding of some bytes
/// (`base64::engine::general_purpose::STANDARD`): each three bytes become
/// four characters of six bits each, and a last one or two bytes are
/// padded with `=` to four characters.
pub open spec fn base64_encoding(bytes: Seq<u8>) -> Seq<char>
    decreases bytes.len(),
{
    if bytes.len() == 0 {
        Seq::empty()
    } else if bytes.len() == 1 {
        let x = bytes[0] as int;
        seq![base64_digit(x / 4), base64_digit((x % 4) * 16), '=', '=']
    } else if bytes.len() == 2 {
        let x = bytes[0] as int;
        let y = bytes[1] as int;
        seq![base64_digit(x / 4), base64_digit((x % 4) * 16 + y / 16), base64_digit((y % 16) * 4), '=']
    } else {
        let x = bytes[0] as int;
        let y = bytes[1] as int;
        let z = bytes[2] as int;
        seq![
            base64_digit(x / 4),
            base64_digit((x % 4) * 16 + y / 16),
            base64_digit((y % 16) * 4 + z / 64),
            base64_digit(z % 64),
        ] + base64_encoding(bytes.subrange(3, bytes.len() as int))
    }
}

/// The alphabet's characters differ for different six-bit values, and none
/// is the padding character.
pub proof fn lemma_base64_digit(m: int, n: int)
    requires
        0 <= m < 64,
        0 <= n < 64,
    ensures
        base64_digit(m) != '=',
        base64_digit(m) == base64_digit(n) ==> m == n,
{
}

/// Four characters of one full group give back their three bytes.
proof fn lemma_base64_group(x: int, y: int, z: int, x2: int, y2: int, z2: int)
    requires
        0 <= x < 256,
        0 <= y < 256,
        0 <= z < 256,
        0 <= x2 < 256,
        0 <= y2 < 256,
        0 <= z2 < 256,
        x / 4 == x2 / 4,
        (x % 4) * 16 + y / 16 == (x2 % 4) * 16 + y2 / 16,
        (y % 16) * 4 + z / 64 == (y2 % 16) * 4 + z2 / 64,
        z % 64 == z2 % 64,
    ensures
        x == x2,
        y == y2,
        z == z2,
{
    assert(x == (x / 4) * 4 + x % 4 && x2 == (x2 / 4) * 4 + x2 % 4);
    assert(x % 4 == x2 % 4 && y / 16 == y2 / 16);
    assert(y % 16 == y2 % 16 && z / 64 == z2 / 64);
    assert(y == (y / 16) * 16 + y % 16 && y2 == (y2 / 16) * 16 + y2 % 16);
    assert(z == (z / 64) * 64 + z % 64 && z2 == (z2 / 64) * 64 + z2 % 64);
}

/// The standard encoding of a byte sequence has four characters per group
/// of up to three bytes.
pub proof fn lemma_base64_encoding_len(b: Seq<u8>)
    ensures
        base64_encoding(b).len() == 4 * ((b.len() + 2) / 3),
    decreases b.len(),
{
    if b.len() >= 3 {
        lemma_base64_encoding_len(b.subrange(3, b.len() as int));
    }
}

/// The first four characters of a non-empty sequence's encoding.
pub open spec fn base64_head(bytes: Seq<u8>) -> Seq<char> {
    let x = bytes[0] as int;
    let y = if bytes.len() >= 2 {
        bytes[1] as int
    } else {
        0
    };
    let z = if bytes.len() >= 3 {
        bytes[2] as int
    } else {
        0
    };
    seq![
        base64_digit(x / 4),
        base64_digit((x % 4) * 16 + y / 16),
        if bytes.len() >= 2 {
            base64_digit((y % 16) * 4 + z / 64)
        } else {
            '='
        },
        if bytes.len() >= 3 {
            base64_digit(z % 64)
        } else {
            '='
        },
    ]
}

proof fn lemma_base64_split(b: Seq<u8>)
    requires
        b.len() > 0,
    ensures
        base64_encoding(b) == base64_head(b) + if b.len() >= 3 {
            base64_encoding(b.subrange(3, b.len() as int))
        } else {
            Seq::<char>::empty()
        },
{
    if b.len() == 1 {
        assert(base64_encoding(b) =~= base64_head(b) + Seq::<char>::empty());
    } else if b.len() == 2 {
        assert(base64_encoding(b) =~= base64_head(b) + Seq::<char>::empty());
    } else {
        assert(base64_encoding(b) =~= base64_head(b) + base64_encoding(b.subrange(3, b.len() as int)));
    }
}

/// Different byte sequences have different encodings.
pub proof fn lemma_base64_encoding_injective(a: Seq<u8>, b: Seq<u8>)
    requires
        base64_encoding(a) == base64_encoding(b),
    ensures
        a == b,
    decreases a.len(),
{
    lemma_base64_encoding_len(a);
    lemma_base64_encoding_len(b);
    if a.len() == 0 || b.len() == 0 {
        assert(a.len() == 0 && b.len() == 0);
        assert(a =~= b);
    } else {
        lemma_base64_split(a);
        lemma_base64_split(b);
        let e = base64_encoding(a);
        let ha = base64_head(a);
        let hb = base64_head(b);
        assert(e.subrange(0, 4) =~= ha);
        assert(e.subrange(0, 4) =~= hb);
        let x = a[0] as int;
        let x2 = b[0] as int;
        let y = if a.len() >= 2 { a[1] as int } else { 0 };
        let y2 = if b.len() >= 2 { b[1] as int } else { 0 };
        let z = if a.len() >= 3 { a[2] as int } else { 0 };
        let z2 = if b.len() >= 3 { b[2] as int } else { 0 };
        assert(ha[0] == hb[0] && ha[1] == hb[1] && ha[2] == hb[2] && ha[3] == hb[3]);
        lemma_base64_digit(x / 4, x2 / 4);
        lemma_base64_digit((x % 4) * 16 + y / 16, (x2 % 4) * 16 + y2 / 16);
        lemma_base64_digit((y % 16) * 4 + z / 64, (y2 % 16) * 4 + z2 / 64);
        lemma_base64_digit(z % 64, z2 % 64);
        assert(a.len() >= 2 <==> b.len() >= 2);
        assert(a.len() >= 3 <==> b.len() >= 3);
        lemma_base64_group(x, y, z, x2, y2, z2);
        if a.len() >= 3 {
            let ra = a.subrange(3, a.len() as int);
            let rb = b.subrange(3, b.len() as int);
            assert(e.subrange(4, e.len() as int) =~= base64_encoding(ra));
            assert(e.subrange(4, e.len() as int) =~= base64_encoding(rb));
            lemma_base64_encoding_injective(ra, rb);
            assert(a =~= seq![a[0], a[1], a[2]] + ra);
            assert(b =~= seq![b[0], b[1], b[2]] + rb);
        } else {
            assert(a =~= b);
        }
    }
}

/// Decoding an encoding gives back its bytes.
pub proof fn lemma_base64_round_trip(b: Seq<u8>)
    ensures
        base64_decoding(base64_encoding(b)) == Some(b),
{
    let t = base64_encoding(b);
    assert(exists|c: Seq<u8>| #[trigger] base64_encoding(c) == t);
    let c = choose|c: Seq<u8>| #[trigger] base64_encoding(c) == t;
    lemma_base64_encoding_injective(c, b);
}

/// What `STANDARD.decode` gives for a text: the bytes whose standard padded
/// encoding the text is, or nothing when it is no such encoding (the engine
/// requires canonical padding and refuses stray trailing bits).
pub open spec fn base64_decoding(text: Seq<char>) -> Option<Seq<u8>> {
    if exists|b: Seq<u8>| #[trigger] base64_encoding(b) == text {
        Some(choose|b: Seq<u8>| #[trigger] base64_encoding(b) == text)
    } else {
        None
    }
}

/// Calls `STANDARD.encode`: the padded standard base64 text of `bytes`.
#[verifier::external_body]
pub(crate) fn base64_encode(bytes: &[u8]) -> (r: String)
    ensures
        r@ == base64_encoding(bytes@),
{
    base64::engine::general_purpose::STANDARD.encode(bytes)
}

/// Calls `STANDARD.decode`: the bytes the text encodes, or an error.
#[verifier::external_body]
pub(crate) fn base64_decode(text: &str) -> (r: Result<Vec<u8>, base64::DecodeError>)
    ensures
        r is Ok <==> base64_decoding(text@) is Some,
        r matches Ok(v) ==> base64_decoding(text@) == Some(v@),
{
    base64::engine::general_purpose::STANDARD.decode(text)
}

/// Calls `String::push`: appends one character.
#[verifier::external_body]
pub(crate) fn string_push(s: &mut String, c: char)
    ensures
        final(s)@ == old(s)@.push(c),
{
    s.push(c);
}

/// HMAC-SHA256 of `msg` under `key` (`hmac::Hmac<sha2::Sha256>`).
pub uninterp spec fn hmac_sha256(key: Seq<u8>, msg: Seq<u8>) -> Seq<u8>;

/// Calls `Hmac::<Sha256>::new_from_slice`, `update` and `finalize`: the
/// 32-byte tag of `msg` under `key`. HMAC takes keys of any length, so
/// `new_from_slice` does not fail.
#[verifier::external_body]
pub(crate) fn hmac_sha256_tag(key: &[u8], msg: &[u8]) -> (r: [u8; 32])
    ensures
        r@ == hmac_sha256(key@, msg@),
        r@.len() == 32,
{
    let mut mac = <hmac::Hmac<sha2::Sha256> as Mac>::new_from_slice(key).unwrap();
    mac.update(msg);
    mac.finalize().into_bytes().into()
}

/// The error `chacha20poly1305` gives when sealing or opening fails.
#[verifier::external_type_specification]
#[verifier::external_body]
pub struct ExAeadError(chacha20poly1305::Error);

/// ChaCha20-Poly1305 sealing: ciphertext and tag of `msg` with `aad`.
pub uninterp spec fn aead_seal(key: Seq<u8>, nonce: Seq<u8>, aad: Seq<u8>, msg: Seq<u8>) -> Seq<u8>;

/// ChaCha20-Poly1305 opening: the message, or nothing when the tag does not
/// authenticate the ciphertext and `aad`.
pub uninterp spec fn aead_open(key: Seq<u8>, nonce: Seq<u8>, aad: Seq<u8>, ciphertext: Seq<u8>) -> Option<Seq<u8>>;

/// The message-length limit below which ChaCha20-Poly1305 seals: its block
/// counter must not overflow (`len / 64 < u32::MAX`).
pub open spec fn aead_len_ok(len: nat) -> bool {
    len / 64 < 4294967295
}

/// Calls `ChaCha20Poly1305::encrypt` with a 32-byte key and 12-byte nonce.
/// It fails only when the message is too long for the block counter, and
/// what it seals opens to the message under the same key, nonce and `aad`.
#[verifier::external_body]
pub(crate) fn aead_encrypt(key: &[u8], nonce: &[u8], aad: &[u8], msg: &[u8]) -> (r: Result<Vec<u8>, chacha20poly1305::Error>)
    requires
        key@.len() == 32,
        nonce@.len() == 12,
    ensures
        r is Ok <==> aead_len_ok(msg@.len()),
        r matches Ok(c) ==> c@ == aead_seal(key@, nonce@, aad@, msg@),
        r matches Ok(c) ==> aead_open(key@, nonce@, aad@, c@) == Some(msg@),
{
    let cipher = chacha20poly1305::ChaCha20Poly1305::new_from_slice(key).unwrap();
    cipher.encrypt(chacha20poly1305::Nonce::from_slice(nonce), chacha20poly1305::aead::Payload { msg, aad })
}

/// Calls `ChaCha20Poly1305::decrypt` with a 32-byte key and 12-byte nonce.
#[verifier::external_body]
pub(crate) fn aead_decrypt(key: &[u8], nonce: &[u8], aad: &[u8], ciphertext: &[u8]) -> (r: Result<Vec<u8>, chacha20poly1305::Error>)
    requires
        key@.len() == 32,
        nonce@.len() == 12,
    ensures
        r is Ok <==> aead_open(key@, nonce@, aad@, ciphertext@) is Some,
        r matches Ok(p) ==> aead_open(key@, nonce@, aad@, ciphertext@) == Some(p@),
{
    let cipher = chacha20poly1305::ChaCha20Poly1305::new_from_slice(key).unwrap();
    cipher.decrypt(
        chacha20poly1305::Nonce::from_slice(nonce),
        chacha20poly1305::aead::Payload { msg: ciphertext, aad },
    )
}

} // verus!
