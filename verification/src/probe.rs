//! The space probe add-on: a diagnostic that pings the other members of its
//! space every few seconds and answers their pings, so that a space's
//! message path can be followed in the logs.
use crate::api::opt_view;
use crate::discovery::{decimal, decimal_string};
use crate::external::string_push;
use crate::text::{lemma_filter_push, split_by, str_eq, trim, trim_str};
use vstd::prelude::*;
use vstd::string::StringExecFns;

verus! {

/// The service probe messages travel on.
pub const PROBE_SERVICE: &'static str = "locallink.debug.space.probe";

/// A probe message.
pub struct ProbePayload {
    pub message_type: String,
    pub ts_ms: u128,
    pub seq: u64,
    pub origin_instance_id: String,
    pub origin_device_id: String,
    pub origin_device_name: String,
    pub space_id: Option<String>,
    pub note: String,
}

/// What the probe makes of an event it was handed.
#[derive(Clone, Copy, Debug, PartialEq, Eq, Structural)]
pub enum ProbeEventCheck {
    NotSpaceData,
    SpaceMismatch,
    MissingData,
    Accepted,
}

/// An event is read only when it is space service data for the probe's own
/// space and carries data.
pub open spec fn probe_event_check(
    kind: Seq<char>,
    event_space: Option<Seq<char>>,
    expected_space: Seq<char>,
    has_data: bool,
) -> ProbeEventCheck {
    if kind != "space_service_data"@ {
        ProbeEventCheck::NotSpaceData
    } else if event_space != Some(expected_space) {
        ProbeEventCheck::SpaceMismatch
    } else if !has_data {
        ProbeEventCheck::MissingData
    } else {
        ProbeEventCheck::Accepted
    }
}

pub fn check_probe_event(
    kind: &str,
    event_space_id: &Option<String>,
    expected_space_id: &str,
    data_b64: &Option<String>,
) -> (r: ProbeEventCheck)
    ensures
        r == probe_event_check(kind@, opt_view(*event_space_id), expected_space_id@, data_b64 is Some),
{
    if !str_eq(kind, "space_service_data") {
        return ProbeEventCheck::NotSpaceData;
    }
    match event_space_id {
        Some(s) => if !str_eq(s.as_str(), expected_space_id) {
            return ProbeEventCheck::SpaceMismatch;
        },
        None => {
            return ProbeEventCheck::SpaceMismatch;
        },
    }
    if data_b64.is_none() {
        return ProbeEventCheck::MissingData;
    }
    ProbeEventCheck::Accepted
}

/// What to do with a probe message that was read.
pub enum ProbeAnswer {
    /// It was sent by this probe itself.
    IgnoreOwn,
    /// It is logged, and needs no answer.
    Accept,
    /// It is a ping: this pong goes back to the space.
    Reply(ProbePayload),
}

/// The note a pong carries.
pub open spec fn pong_note(origin: Seq<char>, seq: u64) -> Seq<char> {
    "reply to "@ + origin + " seq "@ + decimal(seq as nat)
}

/// Answers a probe message: pings from other probes get a pong with the
/// same sequence number.
pub fn answer_probe(
    message: &ProbePayload,
    my_instance_id: &str,
    device_id: &str,
    device_name: &str,
    space_id: &str,
    now_ms: u128,
) -> (r: ProbeAnswer)
    ensures
        message.origin_instance_id@ == my_instance_id@ ==> r is IgnoreOwn,
        message.origin_instance_id@ != my_instance_id@ && message.message_type@ != "probe_ping"@ ==> r is Accept,
        message.origin_instance_id@ != my_instance_id@ && message.message_type@ == "probe_ping"@ ==> (r matches ProbeAnswer::Reply(
            p,
        ) && p.message_type@ == "probe_pong"@ && p.ts_ms == now_ms && p.seq == message.seq && p.origin_instance_id@
            == my_instance_id@ && p.origin_device_id@ == device_id@ && p.origin_device_name@ == device_name@ && opt_view(
            p.space_id,
        ) == Some(space_id@) && p.note@ == pong_note(message.origin_instance_id@, message.seq)),
{
    if str_eq(message.origin_instance_id.as_str(), my_instance_id) {
        return ProbeAnswer::IgnoreOwn;
    }
    if !str_eq(message.message_type.as_str(), "probe_ping") {
        return ProbeAnswer::Accept;
    }
    let seq_text = decimal_string(message.seq);
    let note = "reply to ".to_owned().concat(message.origin_instance_id.as_str()).concat(" seq ").concat(
        seq_text.as_str(),
    );
    ProbeAnswer::Reply(
        ProbePayload {
            message_type: "probe_pong".to_owned(),
            ts_ms: now_ms,
            seq: message.seq,
            origin_instance_id: my_instance_id.to_owned(),
            origin_device_id: device_id.to_owned(),
            origin_device_name: device_name.to_owned(),
            space_id: Some(space_id.to_owned()),
            note,
        },
    )
}

/// The ping a probe sends to its space.
pub fn probe_ping(
    seq: u64,
    now_ms: u128,
    instance_id: &str,
    device_id: &str,
    device_name: &str,
    space_id: &str,
) -> (p: ProbePayload)
    ensures
        p.message_type@ == "probe_ping"@,
        p.ts_ms == now_ms,
        p.seq == seq,
        p.origin_instance_id@ == instance_id@,
        p.origin_device_id@ == device_id@,
        p.origin_device_name@ == device_name@,
        opt_view(p.space_id) == Some(space_id@),
        p.note@ == "space probe ping"@,
{
    ProbePayload {
        message_type: "probe_ping".to_owned(),
        ts_ms: now_ms,
        seq,
        origin_instance_id: instance_id.to_owned(),
        origin_device_id: device_id.to_owned(),
        origin_device_name: device_name.to_owned(),
        space_id: Some(space_id.to_owned()),
        note: "space probe ping".to_owned(),
    }
}

/// The event consumer a probe reads as, so that probes do not take each
/// other's events.
pub fn consumer_id(instance_id: &str) -> (r: String)
    ensures
        r@ == "space-probe:"@ + instance_id@,
{
    "space-probe:".to_owned().concat(instance_id)
}

/// A character kept in a file name: ASCII letters and digits, `-` and `_`;
/// anything else becomes `_`.
pub open spec fn safe_char(c: char) -> char {
    if ('a' <= c && c <= 'z') || ('A' <= c && c <= 'Z') || ('0' <= c && c <= '9') || c == '-' || c == '_' {
        c
    } else {
        '_'
    }
}

pub open spec fn safe_name(s: Seq<char>) -> Seq<char> {
    s.map_values(|c: char| safe_char(c))
}

/// A text made safe to use in a file name.
pub fn safe_filename(value: &str) -> (r: String)
    ensures
        r@ == safe_name(value@),
{
    let n = value.unicode_len();
    let mut out = String::new();
    let mut i: usize = 0;
    proof {
        assert(out@ =~= safe_name(value@.take(0)));
    }
    while i < n
        invariant
            n == value@.len(),
            i <= n,
            out@ == safe_name(value@.take(i as int)),
        decreases n - i,
    {
        let c = value.get_char(i);
        let keep = ('a' <= c && c <= 'z') || ('A' <= c && c <= 'Z') || ('0' <= c && c <= '9') || c == '-' || c == '_';
        if keep {
            string_push(&mut out, c);
        } else {
            string_push(&mut out, '_');
        }
        proof {
            assert(value@.take(i + 1) =~= value@.take(i as int).push(c));
            assert(safe_name(value@.take(i + 1)) =~= safe_name(value@.take(i as int)).push(safe_char(c)));
        }
        i = i + 1;
    }
    proof {
        assert(value@.take(n as int) =~= value@);
    }
    out
}

/// The name of a probe instance's log file.
pub fn probe_log_file_name(instance_id: &str) -> (r: String)
    ensures
        r@ == "space-probe-"@ + safe_name(instance_id@) + ".log"@,
{
    let safe = safe_filename(instance_id);
    "space-probe-".to_owned().concat(safe.as_str()).concat(".log")
}

/// The members a comma-separated list names: each trimmed, blanks dropped.
pub open spec fn member_list(pieces: Seq<Seq<char>>) -> Seq<Seq<char>> {
    pieces.map_values(|p: Seq<char>| trim(p)).filter(|p: Seq<char>| p.len() > 0)
}

fn add_member(r: &mut Vec<String>, piece: &str, done: Ghost<Seq<Seq<char>>>)
    requires
        old(r).deep_view() == member_list(done@),
    ensures
        final(r).deep_view() == member_list(done@.push(piece@)),
{
    let t = trim_str(piece);
    proof {
        assert(done@.push(piece@).map_values(|p: Seq<char>| trim(p)) =~= done@.map_values(|p: Seq<char>| trim(p)).push(
            trim(piece@),
        ));
        lemma_filter_push(done@.map_values(|p: Seq<char>| trim(p)), |p: Seq<char>| p.len() > 0, trim(piece@));
    }
    if t.as_str().unicode_len() > 0 {
        let ghost before = r.deep_view();
        r.push(t);
        proof {
            assert(r.deep_view() =~= before.push(trim(piece@)));
        }
    }
}

/// Reads the connected members an add-on is started with: a comma-separated
/// list.
pub fn connected_members(value: &str) -> (r: Vec<String>)
    ensures
        r.deep_view() == member_list(split_by(value@, ',')),
{
    let n = value.unicode_len();
    let ghost t = value@;
    let ghost mut done: Seq<Seq<char>> = Seq::empty();
    let mut r: Vec<String> = Vec::new();
    let mut start: usize = 0;
    let mut j: usize = 0;
    proof {
        assert(r.deep_view() =~= member_list(Seq::<Seq<char>>::empty()));
        assert(t.take(0) =~= Seq::<char>::empty());
        assert(t.subrange(0, 0) =~= Seq::<char>::empty());
    }
    while j < n
        invariant
            n == t.len(),
            t == value@,
            start <= j <= n,
            split_by(t.take(j as int), ',') == done.push(t.subrange(start as int, j as int)),
            r.deep_view() == member_list(done),
        decreases n - j,
    {
        let c = value.get_char(j);
        proof {
            assert(t.take(j + 1).drop_last() =~= t.take(j as int));
            assert(t.take(j + 1).last() == c);
        }
        if c == ',' {
            add_member(&mut r, value.substring_char(start, j), Ghost(done));
            proof {
                let seg = t.subrange(start as int, j as int);
                assert(split_by(t.take(j + 1), ',') == split_by(t.take(j as int), ',').push(Seq::empty()));
                done = done.push(seg);
                assert(t.subrange(j + 1, j + 1) =~= Seq::<char>::empty());
                assert(split_by(t.take(j + 1), ',') =~= done.push(t.subrange(j + 1, j + 1)));
            }
            start = j + 1;
        } else {
            proof {
                assert(t.subrange(start as int, j + 1) =~= t.subrange(start as int, j as int).push(c));
                assert(split_by(t.take(j + 1), ',') =~= done.push(t.subrange(start as int, j + 1)));
            }
        }
        j = j + 1;
    }
    add_member(&mut r, value.substring_char(start, n), Ghost(done));
    proof {
        assert(t.take(n as int) == t);
    }
    r
}

} // verus!
