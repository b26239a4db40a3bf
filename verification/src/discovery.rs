//! Discovery of nearby devices, and the signed space messages devices send
//! each other over the discovery channel.
use crate::config::{normalize_mac, normalized_mac, psk_bytes, Config, ConfigError};
use crate::external::{base64_decode, base64_decoding, base64_encode, base64_encoding, hmac_sha256, hmac_sha256_tag, string_push};
use crate::protocol::{APP_NAME, PROTOCOL_VERSION};
use crate::strmap::StrMap;
use crate::api_client::{parse_unsigned, parsed_unsigned};
use crate::text::{lemma_utf8_bytes, split_by, str_eq, trim, trim_str, utf8_bytes};
use vstd::prelude::*;
use vstd::string::StringExecFns;
use vstd::string::StringSliceAdditionalSpecFns;

verus! {

/// The kind of a discovery message that carries a space service message.
pub const CORE_SPACE_SERVICE_KIND: &'static str = "core_space_service";

/// A space service message sent over the discovery channel, signed with
/// the pre-shared key.
pub struct CoreSpaceServiceDiscoveryMessage {
    pub app: String,
    pub version: u32,
    pub kind: String,
    pub device_id: String,
    pub device_name: String,
    pub tcp_port: u16,
    pub macs: Vec<String>,
    pub target_device_id: String,
    pub message_id: String,
    pub service: String,
    pub space_id: String,
    pub target_peer_id: Option<String>,
    pub data_b64: String,
    pub auth_b64: String,
}

#[derive(Debug, Clone, Copy, PartialEq, Eq, Structural)]
pub enum DiscoveryError {
    Psk(ConfigError),
    AppMismatch,
    VersionMismatch,
    KindMismatch,
    BadData,
    BadAuthEncoding,
    AuthFailed,
}

/// The decimal digits of `n`, most significant first.
pub open spec fn decimal(n: nat) -> Seq<char>
    decreases n,
{
    if n < 10 {
        seq!["0123456789"@[n as int]]
    } else {
        decimal(n / 10).push("0123456789"@[(n % 10) as int])
    }
}

/// The decimal text of a number, as `format!("{}", n)` writes it.
pub fn decimal_string(n: u64) -> (r: String)
    ensures
        r@ == decimal(n as nat),
    decreases n,
{
    proof {
        reveal_strlit("0123456789");
    }
    let digits = "0123456789";
    if n < 10 {
        let mut s = String::new();
        string_push(&mut s, digits.get_char(n as usize));
        proof {
            assert(s@ =~= seq!["0123456789"@[n as int]]);
        }
        s
    } else {
        let mut s = decimal_string(n / 10);
        string_push(&mut s, digits.get_char((n % 10) as usize));
        s
    }
}

/// The text a space service message is signed over: its fields, one per
/// line, the numbers in decimal and a missing target peer as empty.
pub open spec fn auth_text(m: CoreSpaceServiceDiscoveryMessage) -> Seq<char> {
    let nl = seq!['\n'];
    m.app@ + nl + decimal(m.version as nat) + nl + m.kind@ + nl + m.device_id@ + nl + m.target_device_id@ + nl
        + m.message_id@ + nl + m.space_id@ + nl + m.service@ + nl + match m.target_peer_id {
        Some(t) => t@,
        None => Seq::empty(),
    } + nl + m.data_b64@ + nl + decimal(m.tcp_port as nat)
}

/// The text a space service message is signed over.
pub fn core_space_service_auth_bytes(message: &CoreSpaceServiceDiscoveryMessage) -> (r: String)
    ensures
        r@ == auth_text(*message),
{
    let mut s = message.app.clone();
    string_push(&mut s, '\n');
    s = s.concat(decimal_string(message.version as u64).as_str());
    string_push(&mut s, '\n');
    s = s.concat(message.kind.as_str());
    string_push(&mut s, '\n');
    s = s.concat(message.device_id.as_str());
    string_push(&mut s, '\n');
    s = s.concat(message.target_device_id.as_str());
    string_push(&mut s, '\n');
    s = s.concat(message.message_id.as_str());
    string_push(&mut s, '\n');
    s = s.concat(message.space_id.as_str());
    string_push(&mut s, '\n');
    s = s.concat(message.service.as_str());
    string_push(&mut s, '\n');
    match &message.target_peer_id {
        Some(t) => {
            s = s.concat(t.as_str());
        },
        None => {},
    }
    string_push(&mut s, '\n');
    s = s.concat(message.data_b64.as_str());
    string_push(&mut s, '\n');
    s = s.concat(decimal_string(message.tcp_port as u64).as_str());
    proof {
        assert(s@ =~= auth_text(*message));
    }
    s
}

/// The signature of a message under the pre-shared key: the HMAC of a
/// fixed domain label followed by the UTF-8 bytes of its signed text.
pub open spec fn message_tag(psk: Seq<u8>, m: CoreSpaceServiceDiscoveryMessage) -> Seq<u8> {
    hmac_sha256(psk, "locallink-core-space-service-v1".spec_bytes() + utf8_bytes(auth_text(m)))
}

fn message_tag_bytes(psk: &[u8], message: &CoreSpaceServiceDiscoveryMessage) -> (r: [u8; 32])
    ensures
        r@ == message_tag(psk@, *message),
{
    let text = core_space_service_auth_bytes(message);
    let mut msg: Vec<u8> = Vec::new();
    let domain = "locallink-core-space-service-v1".as_bytes();
    let mut i: usize = 0;
    while i < domain.len()
        invariant
            i <= domain@.len(),
            msg@ == domain@.take(i as int),
        decreases domain@.len() - i,
    {
        msg.push(domain[i]);
        proof {
            assert(domain@.take(i + 1) == domain@.take(i as int).push(domain@[i as int]));
        }
        i = i + 1;
    }
    let text_str = text.as_str();
    let body = text_str.as_bytes();
    let ghost head = msg@;
    let mut j: usize = 0;
    while j < body.len()
        invariant
            j <= body@.len(),
            msg@ == head + body@.take(j as int),
        decreases body@.len() - j,
    {
        msg.push(body[j]);
        proof {
            assert(body@.take(j + 1) == body@.take(j as int).push(body@[j as int]));
        }
        j = j + 1;
    }
    proof {
        assert(domain@.take(domain@.len() as int) == domain@);
        assert(body@.take(body@.len() as int) == body@);
        lemma_utf8_bytes(text_str);
    }
    hmac_sha256_tag(psk, msg.as_slice())
}


/// The base64 signature of a space service message under the configured
/// pre-shared key.
pub fn sign_core_space_service_message(cfg: &Config, message: &CoreSpaceServiceDiscoveryMessage) -> (r: Result<String, ConfigError>)
    ensures
        match psk_bytes_spec(cfg) {
            Err(e) => r == Err::<String, ConfigError>(e),
            Ok(psk) => r matches Ok(s) && s@ == base64_encoding(message_tag(psk, *message)) && base64_decoding(s@)
                == Some(message_tag(psk, *message)),
        },
{
    let psk = psk_bytes(cfg)?;
    let tag = message_tag_bytes(psk.as_slice(), message);
    proof {
        crate::external::lemma_base64_round_trip(tag@);
    }
    Ok(base64_encode(tag.as_slice()))
}

/// What `psk_bytes` gives for a configuration.
pub open spec fn psk_bytes_spec(cfg: &Config) -> Result<Seq<u8>, ConfigError> {
    match cfg.psk_b64 {
        None => Err(ConfigError::NoPsk),
        Some(p) => match base64_decoding(p@) {
            None => Err(ConfigError::BadPskEncoding),
            Some(b) => if b.len() == 32 {
                Ok(b)
            } else {
                Err(ConfigError::BadPskLength)
            },
        },
    }
}

fn bytes_eq(a: &[u8], b: &[u8]) -> (r: bool)
    ensures
        r == (a@ == b@),
{
    if a.len() != b.len() {
        return false;
    }
    let mut i: usize = 0;
    while i < a.len()
        invariant
            a@.len() == b@.len(),
            i <= a@.len(),
            forall|k: int| 0 <= k < i ==> a@[k] == b@[k],
        decreases a@.len() - i,
    {
        if a[i] != b[i] {
            return false;
        }
        i = i + 1;
    }
    proof {
        assert(a@ =~= b@);
    }
    true
}

/// Checks a space service message's signature under the configured key.
pub fn verify_core_space_service_message(cfg: &Config, message: &CoreSpaceServiceDiscoveryMessage) -> (r: Result<(), DiscoveryError>)
    ensures
        match psk_bytes_spec(cfg) {
            Err(e) => r == Err::<(), DiscoveryError>(DiscoveryError::Psk(e)),
            Ok(psk) => match base64_decoding(message.auth_b64@) {
                None => r == Err::<(), DiscoveryError>(DiscoveryError::BadAuthEncoding),
                Some(received) => if received == message_tag(psk, *message) {
                    r is Ok
                } else {
                    r == Err::<(), DiscoveryError>(DiscoveryError::AuthFailed)
                },
            },
        },
{
    let psk = match psk_bytes(cfg) {
        Ok(p) => p,
        Err(e) => {
            return Err(DiscoveryError::Psk(e));
        },
    };
    let received = match base64_decode(message.auth_b64.as_str()) {
        Ok(v) => v,
        Err(_) => {
            return Err(DiscoveryError::BadAuthEncoding);
        },
    };
    let expected = message_tag_bytes(psk.as_slice(), message);
    if bytes_eq(received.as_slice(), expected.as_slice()) {
        Ok(())
    } else {
        Err(DiscoveryError::AuthFailed)
    }
}

/// Whether a message received on the discovery channel is for this
/// device: of this app, and not sent by this device itself.
pub fn accept_discovery_message(app: &str, device_id: &str, my_device_id: &str) -> (r: bool)
    ensures
        r == (app@ == APP_NAME@ && device_id@ != my_device_id@),
{
    str_eq(app, APP_NAME) && !str_eq(device_id, my_device_id)
}

/// Checks a space service message addressed over the discovery channel.
/// One addressed to another device is ignored (`Ok(false)`); one for this
/// device must be of this app, version and kind, carry base64 data, and be
/// signed with the pre-shared key (`Ok(true)`).
pub fn check_core_space_service_message(cfg: &Config, msg: &CoreSpaceServiceDiscoveryMessage) -> (r: Result<bool, DiscoveryError>)
    ensures
        msg.target_device_id@ != cfg.device_id@ ==> r == Ok::<bool, DiscoveryError>(false),
        msg.target_device_id@ == cfg.device_id@ ==> r == (if msg.app@ != APP_NAME@ {
            Err::<bool, DiscoveryError>(DiscoveryError::AppMismatch)
        } else if msg.version != PROTOCOL_VERSION {
            Err(DiscoveryError::VersionMismatch)
        } else if msg.kind@ != CORE_SPACE_SERVICE_KIND@ {
            Err(DiscoveryError::KindMismatch)
        } else if base64_decoding(msg.data_b64@) is None {
            Err(DiscoveryError::BadData)
        } else {
            match psk_bytes_spec(cfg) {
                Err(e) => Err(DiscoveryError::Psk(e)),
                Ok(psk) => match base64_decoding(msg.auth_b64@) {
                    None => Err(DiscoveryError::BadAuthEncoding),
                    Some(received) => if received == message_tag(psk, *msg) {
                        Ok(true)
                    } else {
                        Err(DiscoveryError::AuthFailed)
                    },
                },
            }
        }),
{
    if !str_eq(msg.target_device_id.as_str(), cfg.device_id.as_str()) {
        return Ok(false);
    }
    if !str_eq(msg.app.as_str(), APP_NAME) {
        return Err(DiscoveryError::AppMismatch);
    }
    if msg.version != PROTOCOL_VERSION {
        return Err(DiscoveryError::VersionMismatch);
    }
    if !str_eq(msg.kind.as_str(), CORE_SPACE_SERVICE_KIND) {
        return Err(DiscoveryError::KindMismatch);
    }
    if base64_decode(msg.data_b64.as_str()).is_err() {
        return Err(DiscoveryError::BadData);
    }
    match verify_core_space_service_message(cfg, msg) {
        Ok(()) => Ok(true),
        Err(e) => Err(e),
    }
}

/// Signing round trip: the signature covers only the signed text, so a
/// message sent with the signature of a message with the same signed text
/// (as `sign_core_space_service_message` gives it, before `auth_b64` is
/// filled in) carries exactly the tag the receiving check expects.
pub proof fn lemma_signed_message_verifies(
    psk: Seq<u8>,
    signed: CoreSpaceServiceDiscoveryMessage,
    sent: CoreSpaceServiceDiscoveryMessage,
)
    requires
        auth_text(signed) == auth_text(sent),
        base64_decoding(sent.auth_b64@) == Some(message_tag(psk, signed)),
    ensures
        base64_decoding(sent.auth_b64@) == Some(message_tag(psk, sent)),
{
}

/// How long a discovered peer is kept without a fresh announcement, in
/// milliseconds.
pub const PEER_TTL_MS: u64 = 15000;

/// A device heard on the discovery channel.
pub struct PeerRecord {
    pub device_id: String,
    pub device_name: String,
    /// Where it accepts connections, as text.
    pub addr: String,
    pub macs: Vec<String>,
    /// When it was last heard, in milliseconds of the caller's clock.
    pub last_seen_ms: u64,
}

pub struct PeerRecordView {
    pub device_id: Seq<char>,
    pub device_name: Seq<char>,
    pub addr: Seq<char>,
    pub macs: Seq<Seq<char>>,
    pub last_seen_ms: u64,
}

impl View for PeerRecord {
    type V = PeerRecordView;

    open spec fn view(&self) -> PeerRecordView {
        PeerRecordView {
            device_id: self.device_id@,
            device_name: self.device_name@,
            addr: self.addr@,
            macs: self.macs.deep_view(),
            last_seen_ms: self.last_seen_ms,
        }
    }
}

impl Clone for PeerRecord {
    fn clone(&self) -> (r: Self)
        ensures
            r@ == self@,
    {
        PeerRecord {
            device_id: self.device_id.clone(),
            device_name: self.device_name.clone(),
            addr: self.addr.clone(),
            macs: crate::text::clone_strings(&self.macs),
            last_seen_ms: self.last_seen_ms,
        }
    }
}

/// Whether a peer last heard at `last_seen` is still fresh at `now`: no
/// more than `ttl` has passed (a time before `last_seen` counts as none).
pub open spec fn is_fresh(last_seen: u64, now: u64, ttl: u64) -> bool {
    if now >= last_seen {
        now - last_seen <= ttl
    } else {
        true
    }
}

/// The peers of a table that are stale at `now`.
pub open spec fn stale_keys(m: Map<Seq<char>, PeerRecordView>, now: u64, ttl: u64) -> Set<Seq<char>> {
    m.dom().filter(|k: Seq<char>| !is_fresh(m[k].last_seen_ms, now, ttl))
}

/// The devices heard recently, by device id.
pub struct PeerTable {
    peers: StrMap<PeerRecord>,
}

impl View for PeerTable {
    type V = Map<Seq<char>, PeerRecordView>;

    closed spec fn view(&self) -> Map<Seq<char>, PeerRecordView> {
        self.peers@
    }
}

impl PeerTable {
    pub fn new() -> (t: Self)
        ensures
            t@ == Map::<Seq<char>, PeerRecordView>::empty(),
    {
        PeerTable { peers: StrMap::new() }
    }

    pub fn len(&self) -> (n: usize)
        ensures
            n == self@.dom().len(),
    {
        self.peers.len()
    }

    pub fn get(&self, device_id: &str) -> (r: Option<&PeerRecord>)
        ensures
            r is Some == self@.contains_key(device_id@),
            r matches Some(p) ==> p@ == self@[device_id@],
    {
        self.peers.get(device_id)
    }

    /// Records a device just heard, replacing what was known of it; returns
    /// whether it is new.
    pub fn upsert_peer(
        &mut self,
        device_id: String,
        device_name: String,
        addr: String,
        macs: Vec<String>,
        now_ms: u64,
    ) -> (is_new: bool)
        ensures
            final(self)@ == old(self)@.insert(
                device_id@,
                PeerRecordView {
                    device_id: device_id@,
                    device_name: device_name@,
                    addr: addr@,
                    macs: macs.deep_view(),
                    last_seen_ms: now_ms,
                },
            ),
            is_new == !old(self)@.contains_key(device_id@),
    {
        let is_new = !self.peers.contains_key(device_id.as_str());
        let key = device_id.clone();
        let record = PeerRecord { device_id, device_name, addr, macs, last_seen_ms: now_ms };
        self.peers.insert(key, record);
        is_new
    }

    /// Drops the peers not heard within `ttl_ms` of `now_ms`; returns how
    /// many were dropped.
    pub fn expire(&mut self, now_ms: u64, ttl_ms: u64) -> (expired: usize)
        ensures
            final(self)@ == old(self)@.remove_keys(stale_keys(old(self)@, now_ms, ttl_ms)),
            expired == old(self)@.dom().len() - final(self)@.dom().len(),
    {
        let ghost m0 = self@;
        let ghost stale = stale_keys(m0, now_ms, ttl_ms);
        let before = self.peers.len();
        let keys = self.peers.sorted_keys();
        let ghost d = keys.deep_view();
        proof {
            crate::text::lemma_strictly_sorted_no_duplicates(d);
        }
        let mut i: usize = 0;
        while i < keys.len()
            invariant
                d == keys.deep_view(),
                d.to_set() == m0.dom(),
                d.no_duplicates(),
                stale == stale_keys(m0, now_ms, ttl_ms),
                i <= d.len(),
                self@ == m0.remove_keys(stale.intersect(d.take(i as int).to_set())),
            decreases d.len() - i,
        {
            let k = keys[i].as_str();
            proof {
                assert(k@ == d[i as int]);
                crate::text::lemma_take_to_set_step(d, i as int);
                assert(m0.dom().contains(k@));
                assert(!d.take(i as int).to_set().contains(k@)) by {
                    if d.take(i as int).contains(k@) {
                        let j = choose|j: int| 0 <= j < i && #[trigger] d.take(i as int)[j] == k@;
                        assert(d[j] == d[i as int]);
                    }
                }
                assert(self@.contains_key(k@));
            }
            let stale_now = match self.peers.get(k) {
                Some(p) => now_ms >= p.last_seen_ms && now_ms - p.last_seen_ms > ttl_ms,
                None => false,
            };
            if stale_now {
                self.peers.remove(k);
            }
            proof {
                assert(self@ =~= m0.remove_keys(stale.intersect(d.take(i + 1).to_set())));
            }
            i = i + 1;
        }
        proof {
            assert(d.take(d.len() as int) == d);
            assert(stale.intersect(d.to_set()) =~= stale);
            assert(self@.dom().subset_of(m0.dom()));
            vstd::set_lib::lemma_len_subset(self@.dom(), m0.dom());
        }
        let after = self.peers.len();
        before - after
    }

    /// The peers, in increasing device id order.
    pub fn records(&self) -> (r: Vec<PeerRecord>)
        ensures
            ({
                let ks = crate::text::sorted_seq_of(self@.dom());
                &&& r@.len() == ks.len()
                &&& forall|i: int| 0 <= i < r@.len() ==> (#[trigger] r@[i])@ == self@[ks[i]]
            }),
    {
        let keys = self.peers.sorted_keys();
        let ghost d = keys.deep_view();
        proof {
            let w = choose|q: Seq<Seq<char>>| crate::text::strictly_sorted(q) && q.to_set() == self@.dom();
            crate::text::lemma_strictly_sorted_unique(d, w);
        }
        let mut r: Vec<PeerRecord> = Vec::new();
        let mut i: usize = 0;
        while i < keys.len()
            invariant
                d == keys.deep_view(),
                d == crate::text::sorted_seq_of(self@.dom()),
                d.to_set() == self@.dom(),
                i <= d.len(),
                r@.len() == i,
                forall|j: int| 0 <= j < i ==> (#[trigger] r@[j])@ == self@[d[j]],
            decreases d.len() - i,
        {
            let k = keys[i].as_str();
            proof {
                assert(k@ == d[i as int]);
                assert(self@.dom().contains(k@));
            }
            match self.peers.get(k) {
                Some(p) => {
                    r.push(p.clone());
                },
                None => {},
            }
            i = i + 1;
        }
        r
    }

    /// The peers as the local API lists them, in increasing device id order.
    pub fn summaries(&self) -> (r: Vec<crate::api::PeerSummary>)
        ensures
            r@.len() == self@.dom().len(),
            forall|i: int|
                0 <= i < r@.len() ==> {
                    let p = #[trigger] r@[i]@;
                    &&& self@.contains_key(p.device_id)
                    &&& p.device_name == self@[p.device_id].device_name
                    &&& p.macs == self@[p.device_id].macs
                },
            forall|k: Seq<char>|
                self@.contains_key(k) ==> exists|i: int| 0 <= i < r@.len() && #[trigger] r@[i]@.device_id == k,
    {
        let keys = self.peers.sorted_keys();
        let ghost d = keys.deep_view();
        proof {
            crate::text::lemma_strictly_sorted_no_duplicates(d);
            d.unique_seq_to_set();
        }
        let mut r: Vec<crate::api::PeerSummary> = Vec::new();
        let mut i: usize = 0;
        while i < keys.len()
            invariant
                d == keys.deep_view(),
                d.to_set() == self@.dom(),
                i <= d.len(),
                r@.len() == i,
                forall|j: int|
                    0 <= j < i ==> {
                        let p = #[trigger] r@[j]@;
                        &&& p.device_id == d[j]
                        &&& self@.contains_key(p.device_id)
                        &&& p.device_name == self@[p.device_id].device_name
                        &&& p.macs == self@[p.device_id].macs
                    },
            decreases d.len() - i,
        {
            let k = keys[i].as_str();
            proof {
                assert(k@ == d[i as int]);
                assert(self@.dom().contains(k@));
            }
            match self.peers.get(k) {
                Some(p) => {
                    r.push(
                        crate::api::PeerSummary {
                            device_id: k.to_string(),
                            device_name: p.device_name.clone(),
                            macs: crate::text::clone_strings(&p.macs),
                        },
                    );
                },
                None => {},
            }
            i = i + 1;
        }
        proof {
            assert forall|k: Seq<char>| self@.contains_key(k) implies exists|i: int|
                0 <= i < r@.len() && #[trigger] r@[i]@.device_id == k by {
                assert(d.to_set().contains(k));
                let j = choose|j: int| 0 <= j < d.len() && d[j] == k;
                assert(r@[j]@.device_id == k);
            }
        }
        r
    }
}

/// The largest interface index.
pub const MAX_INTERFACE_INDEX: u64 = 0xffff_ffff;

/// The indices listed so far, with one more line read: a non-zero number
/// not yet listed is added.
pub open spec fn index_step(before: Seq<u32>, line: Seq<char>) -> Seq<u32> {
    match parsed_unsigned(trim(line), MAX_INTERFACE_INDEX as int) {
        Some(v) => if v != 0 && !before.contains(v as u32) {
            before.push(v as u32)
        } else {
            before
        },
        None => before,
    }
}

/// The distinct non-zero interface indices listed one per line, in order.
pub open spec fn listed_indices(lines: Seq<Seq<char>>) -> Seq<u32>
    decreases lines.len(),
{
    if lines.len() == 0 {
        Seq::empty()
    } else {
        index_step(listed_indices(lines.drop_last()), lines.last())
    }
}

/// The interface index an override names, when it is a non-zero number.
pub open spec fn override_index(v: Seq<char>) -> Option<u32> {
    match parsed_unsigned(trim(v), MAX_INTERFACE_INDEX as int) {
        Some(n) => if n != 0 {
            Some(n as u32)
        } else {
            None
        },
        None => None,
    }
}

/// The interfaces discovery runs on: the one an override names; else those
/// the adapter query lists; else the default interface, 0.
pub open spec fn chosen_indices(override_value: Option<Seq<char>>, adapter_output: Option<Seq<char>>) -> Seq<
    u32,
> {
    if override_value is Some && override_index(override_value->0) is Some {
        seq![override_index(override_value->0)->0]
    } else {
        let listed = match adapter_output {
            Some(t) => listed_indices(split_by(t, '\n')),
            None => Seq::empty(),
        };
        if listed.len() == 0 {
            seq![0u32]
        } else {
            listed
        }
    }
}

fn contains_u32(v: &Vec<u32>, x: u32) -> (r: bool)
    ensures
        r == v@.contains(x),
{
    let mut i: usize = 0;
    while i < v.len()
        invariant
            i <= v@.len(),
            forall|j: int| 0 <= j < i ==> v@[j] != x,
        decreases v@.len() - i,
    {
        if v[i] == x {
            return true;
        }
        i = i + 1;
    }
    false
}

/// The non-zero number a line holds, when it holds one that fits an index.
fn line_index(line: &str) -> (r: Option<u32>)
    ensures
        r == override_index(line@),
{
    let t = trim_str(line);
    match parse_unsigned(t.as_str(), MAX_INTERFACE_INDEX) {
        Some(n) => if n != 0 {
            Some(n as u32)
        } else {
            None
        },
        None => None,
    }
}

/// Reads the adapter query's output: one index per line.
pub fn listed_interface_indices(text: &str) -> (r: Vec<u32>)
    ensures
        r@ == listed_indices(split_by(text@, '\n')),
{
    let n = text.unicode_len();
    let ghost t = text@;
    let ghost mut done: Seq<Seq<char>> = Seq::empty();
    let mut r: Vec<u32> = Vec::new();
    let mut start: usize = 0;
    let mut j: usize = 0;
    proof {
        assert(t.take(0) =~= Seq::<char>::empty());
        assert(t.subrange(0, 0) =~= Seq::<char>::empty());
    }
    while j < n
        invariant
            n == t.len(),
            t == text@,
            start <= j <= n,
            split_by(t.take(j as int), '\n') == done.push(t.subrange(start as int, j as int)),
            r@ == listed_indices(done),
        decreases n - j,
    {
        let c = text.get_char(j);
        proof {
            assert(t.take(j + 1).drop_last() =~= t.take(j as int));
            assert(t.take(j + 1).last() == c);
        }
        if c == '\n' {
            let piece = text.substring_char(start, j);
            if let Some(v) = line_index(piece) {
                if !contains_u32(&r, v) {
                    r.push(v);
                }
            }
            proof {
                let seg = t.subrange(start as int, j as int);
                assert(done.push(seg).drop_last() =~= done);
                assert(done.push(seg).last() == seg);
                assert(split_by(t.take(j + 1), '\n') == split_by(t.take(j as int), '\n').push(Seq::empty()));
                done = done.push(seg);
                assert(t.subrange(j + 1, j + 1) =~= Seq::<char>::empty());
                assert(split_by(t.take(j + 1), '\n') =~= done.push(t.subrange(j + 1, j + 1)));
            }
            start = j + 1;
        } else {
            proof {
                assert(t.subrange(start as int, j + 1) =~= t.subrange(start as int, j as int).push(c));
                assert(split_by(t.take(j + 1), '\n') =~= done.push(t.subrange(start as int, j + 1)));
            }
        }
        j = j + 1;
    }
    let piece = text.substring_char(start, n);
    if let Some(v) = line_index(piece) {
        if !contains_u32(&r, v) {
            r.push(v);
        }
    }
    proof {
        let seg = t.subrange(start as int, n as int);
        assert(t.take(n as int) == t);
        assert(done.push(seg).drop_last() =~= done);
        assert(done.push(seg).last() == seg);
    }
    r
}

/// The interfaces to send discovery traffic on. `override_value` is the
/// configured interface index, if one is set; `adapter_output` what the
/// query for the machine's active physical adapters printed, if it ran.
pub fn interface_indices(override_value: &Option<String>, adapter_output: &Option<String>) -> (r: Vec<u32>)
    ensures
        r@ == chosen_indices(crate::api::opt_view(*override_value), crate::api::opt_view(*adapter_output)),
{
    if let Some(v) = override_value {
        if let Some(index) = line_index(v.as_str()) {
            let mut r: Vec<u32> = Vec::new();
            r.push(index);
            return r;
        }
    }
    let mut r = match adapter_output {
        Some(t) => listed_interface_indices(t.as_str()),
        None => Vec::new(),
    };
    if r.len() == 0 {
        r.push(0);
    }
    r
}

/// The first comma-separated field of a line.
pub open spec fn first_field(t: Seq<char>) -> Seq<char>
    decreases t.len(),
{
    if t.len() == 0 {
        t
    } else if t[0] == ',' {
        Seq::empty()
    } else {
        seq![t[0]] + first_field(t.drop_first())
    }
}

proof fn lemma_first_field(t: Seq<char>, i: int)
    requires
        0 <= i <= t.len(),
        forall|k: int| 0 <= k < i ==> t[k] != ',',
        i == t.len() || t[i] == ',',
    ensures
        first_field(t) == t.take(i),
    decreases i,
{
    if i == 0 {
        assert(t.take(0) =~= Seq::<char>::empty());
        if t.len() == 0 {
            assert(t =~= Seq::<char>::empty());
        }
    } else {
        let u = t.drop_first();
        assert forall|k: int| 0 <= k < i - 1 implies u[k] != ',' by {
            assert(u[k] == t[k + 1]);
        }
        if i < t.len() {
            assert(u[i - 1] == t[i]);
        }
        lemma_first_field(u, i - 1);
        assert(t.take(i) =~= seq![t[0]] + u.take(i - 1));
    }
}

/// The MACs listed so far, with one more line of `getmac` output read: the
/// canonical form of the address in its first field, when it has one and
/// it is not listed yet. Only the hexadecimal digits of the field count, so
/// the quotes and spaces around it make no difference.
pub open spec fn mac_step(before: Seq<Seq<char>>, line: Seq<char>) -> Seq<Seq<char>> {
    let m = normalized_mac(first_field(line));
    if m.len() > 0 && !before.contains(m) {
        before.push(m)
    } else {
        before
    }
}

/// The distinct addresses `getmac` lists, in order.
pub open spec fn listed_macs(lines: Seq<Seq<char>>) -> Seq<Seq<char>>
    decreases lines.len(),
{
    if lines.len() == 0 {
        Seq::empty()
    } else {
        mac_step(listed_macs(lines.drop_last()), lines.last())
    }
}

/// The canonical address in the first field of a line, or an empty string.
fn line_mac(line: &str) -> (r: String)
    ensures
        r@ == normalized_mac(first_field(line@)),
{
    let n = line.unicode_len();
    let mut i: usize = 0;
    while i < n && line.get_char(i) != ','
        invariant
            n == line@.len(),
            i <= n,
            forall|k: int| 0 <= k < i ==> line@[k] != ',',
        decreases n - i,
    {
        i = i + 1;
    }
    proof {
        lemma_first_field(line@, i as int);
        assert(line@.take(i as int) =~= line@.subrange(0, i as int));
    }
    normalize_mac(line.substring_char(0, i))
}

/// Adds the address of one line to the list, unless blank or listed.
fn add_line_mac(r: &mut Vec<String>, line: &str)
    ensures
        final(r).deep_view() == mac_step(old(r).deep_view(), line@),
{
    let m = line_mac(line);
    if m.as_str().unicode_len() > 0 && !crate::text::contains_str(r, m.as_str()) {
        let ghost before = r.deep_view();
        r.push(m);
        proof {
            assert(r.deep_view() =~= before.push(normalized_mac(first_field(line@))));
        }
    }
}

/// Reads the output of `getmac /fo csv /nh`: the machine's own addresses, in
/// canonical form, once each.
pub fn local_macs_from_getmac(output: &str) -> (r: Vec<String>)
    ensures
        r.deep_view() == listed_macs(split_by(output@, '\n')),
{
    let n = output.unicode_len();
    let ghost t = output@;
    let ghost mut done: Seq<Seq<char>> = Seq::empty();
    let mut r: Vec<String> = Vec::new();
    let mut start: usize = 0;
    let mut j: usize = 0;
    proof {
        assert(r.deep_view() =~= Seq::<Seq<char>>::empty());
        assert(t.take(0) =~= Seq::<char>::empty());
        assert(t.subrange(0, 0) =~= Seq::<char>::empty());
    }
    while j < n
        invariant
            n == t.len(),
            t == output@,
            start <= j <= n,
            split_by(t.take(j as int), '\n') == done.push(t.subrange(start as int, j as int)),
            r.deep_view() == listed_macs(done),
        decreases n - j,
    {
        let c = output.get_char(j);
        proof {
            assert(t.take(j + 1).drop_last() =~= t.take(j as int));
            assert(t.take(j + 1).last() == c);
        }
        if c == '\n' {
            add_line_mac(&mut r, output.substring_char(start, j));
            proof {
                let seg = t.subrange(start as int, j as int);
                assert(done.push(seg).drop_last() =~= done);
                assert(done.push(seg).last() == seg);
                assert(split_by(t.take(j + 1), '\n') == split_by(t.take(j as int), '\n').push(Seq::empty()));
                done = done.push(seg);
                assert(t.subrange(j + 1, j + 1) =~= Seq::<char>::empty());
                assert(split_by(t.take(j + 1), '\n') =~= done.push(t.subrange(j + 1, j + 1)));
            }
            start = j + 1;
        } else {
            proof {
                assert(t.subrange(start as int, j + 1) =~= t.subrange(start as int, j as int).push(c));
                assert(split_by(t.take(j + 1), '\n') =~= done.push(t.subrange(start as int, j + 1)));
            }
        }
        j = j + 1;
    }
    add_line_mac(&mut r, output.substring_char(start, n));
    proof {
        let seg = t.subrange(start as int, n as int);
        assert(t.take(n as int) == t);
        assert(done.push(seg).drop_last() =~= done);
        assert(done.push(seg).last() == seg);
    }
    r
}

} // verus!
