//! The local control API: its commands, their arguments and defaults, and
//! the decisions each command makes on the spaces, peers and trusted devices.
use crate::config::{matches_any, normalize_mac, normalized_mac, normalized_macs};
use crate::ids::{is_uuid_v4_text, new_uuid_v4};
use crate::order::{keys_lt, lemma_insert_by_key_at, lemma_keys_lt_pair, sort_by_key};
use crate::spaces::{
    first_space_index, records_view, store_repair, SpaceError, SpaceKind, SpaceRecord, SpaceRecordView, SpaceStore,
};
use crate::strmap::StrMap;
use crate::text::{clone_strings, contains_str, sort_dedup, sorted_seq_of, str_eq, string_lt};
use vstd::prelude::*;

verus! {

/// The address the local API listens on.
pub const LOCAL_API_ADDR: &'static str = "127.0.0.1:47900";

/// A request to the local API: a command and its optional arguments.
pub struct ApiRequest {
    pub cmd: String,
    pub peer_id: Option<String>,
    pub target_peer_id: Option<String>,
    pub space_id: Option<String>,
    pub kind: Option<SpaceKind>,
    pub service: Option<String>,
    pub channel_id: Option<String>,
    pub data_b64: Option<String>,
    pub reason: Option<String>,
    pub max_events: Option<usize>,
    pub wait_ms: Option<u64>,
    pub consumer_id: Option<String>,
    pub mac: Option<String>,
    pub name: Option<String>,
}

pub struct ApiRequestView {
    pub cmd: Seq<char>,
    pub peer_id: Option<Seq<char>>,
    pub target_peer_id: Option<Seq<char>>,
    pub space_id: Option<Seq<char>>,
    pub kind: Option<SpaceKind>,
    pub service: Option<Seq<char>>,
    pub channel_id: Option<Seq<char>>,
    pub data_b64: Option<Seq<char>>,
    pub reason: Option<Seq<char>>,
    pub max_events: Option<usize>,
    pub wait_ms: Option<u64>,
    pub consumer_id: Option<Seq<char>>,
    pub mac: Option<Seq<char>>,
    pub name: Option<Seq<char>>,
}

impl View for ApiRequest {
    type V = ApiRequestView;

    open spec fn view(&self) -> ApiRequestView {
        ApiRequestView {
            cmd: self.cmd@,
            peer_id: opt_view(self.peer_id),
            target_peer_id: opt_view(self.target_peer_id),
            space_id: opt_view(self.space_id),
            kind: self.kind,
            service: opt_view(self.service),
            channel_id: opt_view(self.channel_id),
            data_b64: opt_view(self.data_b64),
            reason: opt_view(self.reason),
            max_events: self.max_events,
            wait_ms: self.wait_ms,
            consumer_id: opt_view(self.consumer_id),
            mac: opt_view(self.mac),
            name: opt_view(self.name),
        }
    }
}

/// A request naming only a command.
pub open spec fn bare_request(cmd: Seq<char>) -> ApiRequestView {
    ApiRequestView {
        cmd,
        peer_id: None,
        target_peer_id: None,
        space_id: None,
        kind: None,
        service: None,
        channel_id: None,
        data_b64: None,
        reason: None,
        max_events: None,
        wait_ms: None,
        consumer_id: None,
        mac: None,
        name: None,
    }
}

impl ApiRequest {
    /// A request naming only a command.
    pub fn bare(cmd: &str) -> (r: Self)
        ensures
            r@ == bare_request(cmd@),
    {
        ApiRequest {
            cmd: cmd.to_owned(),
            peer_id: None,
            target_peer_id: None,
            space_id: None,
            kind: None,
            service: None,
            channel_id: None,
            data_b64: None,
            reason: None,
            max_events: None,
            wait_ms: None,
            consumer_id: None,
            mac: None,
            name: None,
        }
    }
}

/// The commands of the local API.
#[derive(Clone, Copy, Debug, PartialEq, Eq, Structural)]
pub enum ApiCommand {
    Help,
    Status,
    Paths,
    Shutdown,
    ListSpaces,
    CreateSpace,
    AddSpaceMember,
    RemoveSpaceMember,
    SendSpaceMessage,
    ListTrustedDevices,
    AddTrustedDevice,
    RemoveTrustedDevice,
    ConnectDevice,
    ListPeers,
    ListConnections,
    DisconnectDevice,
    ListAddons,
    ReloadAddons,
    SendMessage,
    OpenChannel,
    ChannelSend,
    ChannelClose,
    PollEvents,
    WaitEvents,
}

/// The command a name stands for.
pub open spec fn command_of(cmd: Seq<char>) -> Option<ApiCommand> {
    if cmd == "help"@ {
        Some(ApiCommand::Help)
    } else if cmd == "status"@ {
        Some(ApiCommand::Status)
    } else if cmd == "paths"@ {
        Some(ApiCommand::Paths)
    } else if cmd == "shutdown"@ {
        Some(ApiCommand::Shutdown)
    } else if cmd == "list_spaces"@ {
        Some(ApiCommand::ListSpaces)
    } else if cmd == "create_space"@ {
        Some(ApiCommand::CreateSpace)
    } else if cmd == "add_space_member"@ {
        Some(ApiCommand::AddSpaceMember)
    } else if cmd == "remove_space_member"@ {
        Some(ApiCommand::RemoveSpaceMember)
    } else if cmd == "send_space_message"@ {
        Some(ApiCommand::SendSpaceMessage)
    } else if cmd == "list_trusted_devices"@ {
        Some(ApiCommand::ListTrustedDevices)
    } else if cmd == "add_trusted_device"@ {
        Some(ApiCommand::AddTrustedDevice)
    } else if cmd == "remove_trusted_device"@ {
        Some(ApiCommand::RemoveTrustedDevice)
    } else if cmd == "connect_device"@ {
        Some(ApiCommand::ConnectDevice)
    } else if cmd == "list_peers"@ {
        Some(ApiCommand::ListPeers)
    } else if cmd == "list_connections"@ {
        Some(ApiCommand::ListConnections)
    } else if cmd == "disconnect_device"@ {
        Some(ApiCommand::DisconnectDevice)
    } else if cmd == "list_addons"@ {
        Some(ApiCommand::ListAddons)
    } else if cmd == "reload_addons"@ {
        Some(ApiCommand::ReloadAddons)
    } else if cmd == "send_message"@ {
        Some(ApiCommand::SendMessage)
    } else if cmd == "open_channel"@ {
        Some(ApiCommand::OpenChannel)
    } else if cmd == "channel_send"@ {
        Some(ApiCommand::ChannelSend)
    } else if cmd == "channel_close"@ {
        Some(ApiCommand::ChannelClose)
    } else if cmd == "poll_events"@ {
        Some(ApiCommand::PollEvents)
    } else if cmd == "wait_events"@ {
        Some(ApiCommand::WaitEvents)
    } else {
        None
    }
}

/// The command a request names, if it is one.
pub fn parse_command(cmd: &str) -> (r: Option<ApiCommand>)
    ensures
        r == command_of(cmd@),
{
    if str_eq(cmd, "help") {
        Some(ApiCommand::Help)
    } else if str_eq(cmd, "status") {
        Some(ApiCommand::Status)
    } else if str_eq(cmd, "paths") {
        Some(ApiCommand::Paths)
    } else if str_eq(cmd, "shutdown") {
        Some(ApiCommand::Shutdown)
    } else if str_eq(cmd, "list_spaces") {
        Some(ApiCommand::ListSpaces)
    } else if str_eq(cmd, "create_space") {
        Some(ApiCommand::CreateSpace)
    } else if str_eq(cmd, "add_space_member") {
        Some(ApiCommand::AddSpaceMember)
    } else if str_eq(cmd, "remove_space_member") {
        Some(ApiCommand::RemoveSpaceMember)
    } else if str_eq(cmd, "send_space_message") {
        Some(ApiCommand::SendSpaceMessage)
    } else if str_eq(cmd, "list_trusted_devices") {
        Some(ApiCommand::ListTrustedDevices)
    } else if str_eq(cmd, "add_trusted_device") {
        Some(ApiCommand::AddTrustedDevice)
    } else if str_eq(cmd, "remove_trusted_device") {
        Some(ApiCommand::RemoveTrustedDevice)
    } else if str_eq(cmd, "connect_device") {
        Some(ApiCommand::ConnectDevice)
    } else if str_eq(cmd, "list_peers") {
        Some(ApiCommand::ListPeers)
    } else if str_eq(cmd, "list_connections") {
        Some(ApiCommand::ListConnections)
    } else if str_eq(cmd, "disconnect_device") {
        Some(ApiCommand::DisconnectDevice)
    } else if str_eq(cmd, "list_addons") {
        Some(ApiCommand::ListAddons)
    } else if str_eq(cmd, "reload_addons") {
        Some(ApiCommand::ReloadAddons)
    } else if str_eq(cmd, "send_message") {
        Some(ApiCommand::SendMessage)
    } else if str_eq(cmd, "open_channel") {
        Some(ApiCommand::OpenChannel)
    } else if str_eq(cmd, "channel_send") {
        Some(ApiCommand::ChannelSend)
    } else if str_eq(cmd, "channel_close") {
        Some(ApiCommand::ChannelClose)
    } else if str_eq(cmd, "poll_events") {
        Some(ApiCommand::PollEvents)
    } else if str_eq(cmd, "wait_events") {
        Some(ApiCommand::WaitEvents)
    } else {
        None
    }
}

/// How long a command may take: waiting for events may take 40 seconds,
/// every other command 5.
pub fn command_timeout_ms(cmd: &str) -> (r: u64)
    ensures
        r == (if cmd@ == "wait_events"@ {
            40000u64
        } else {
            5000u64
        }),
{
    if str_eq(cmd, "wait_events") {
        40000
    } else {
        5000
    }
}

/// An argument a command could not do without.
#[derive(Clone, Copy, Debug, PartialEq, Eq, Structural)]
pub enum ApiArg {
    SpaceId,
    PeerId,
    Service,
    DataB64,
    ChannelId,
    Mac,
}

#[derive(Debug)]
pub enum ApiError {
    Missing { command: ApiCommand, arg: ApiArg },
    Space(SpaceError),
    UnknownSpace { space_id: String },
    SpaceExists { space_id: String },
    SpaceNotCreated,
    TargetNotMember { space_id: String },
    NoMembers { space_id: String },
    NoMatchingPeer,
    NotTrusted,
    NoDisconnectTarget,
    RandomUnavailable,
}

/// The name a command goes by in requests.
pub open spec fn command_label(c: ApiCommand) -> Seq<char> {
    match c {
        ApiCommand::Help => "help"@,
        ApiCommand::Status => "status"@,
        ApiCommand::Paths => "paths"@,
        ApiCommand::Shutdown => "shutdown"@,
        ApiCommand::ListSpaces => "list_spaces"@,
        ApiCommand::CreateSpace => "create_space"@,
        ApiCommand::AddSpaceMember => "add_space_member"@,
        ApiCommand::RemoveSpaceMember => "remove_space_member"@,
        ApiCommand::SendSpaceMessage => "send_space_message"@,
        ApiCommand::ListTrustedDevices => "list_trusted_devices"@,
        ApiCommand::AddTrustedDevice => "add_trusted_device"@,
        ApiCommand::RemoveTrustedDevice => "remove_trusted_device"@,
        ApiCommand::ConnectDevice => "connect_device"@,
        ApiCommand::ListPeers => "list_peers"@,
        ApiCommand::ListConnections => "list_connections"@,
        ApiCommand::DisconnectDevice => "disconnect_device"@,
        ApiCommand::ListAddons => "list_addons"@,
        ApiCommand::ReloadAddons => "reload_addons"@,
        ApiCommand::SendMessage => "send_message"@,
        ApiCommand::OpenChannel => "open_channel"@,
        ApiCommand::ChannelSend => "channel_send"@,
        ApiCommand::ChannelClose => "channel_close"@,
        ApiCommand::PollEvents => "poll_events"@,
        ApiCommand::WaitEvents => "wait_events"@,
    }
}

/// The name a command goes by in requests.
pub fn command_name(c: ApiCommand) -> (r: &'static str)
    ensures
        r@ == command_label(c),
{
    match c {
        ApiCommand::Help => "help",
        ApiCommand::Status => "status",
        ApiCommand::Paths => "paths",
        ApiCommand::Shutdown => "shutdown",
        ApiCommand::ListSpaces => "list_spaces",
        ApiCommand::CreateSpace => "create_space",
        ApiCommand::AddSpaceMember => "add_space_member",
        ApiCommand::RemoveSpaceMember => "remove_space_member",
        ApiCommand::SendSpaceMessage => "send_space_message",
        ApiCommand::ListTrustedDevices => "list_trusted_devices",
        ApiCommand::AddTrustedDevice => "add_trusted_device",
        ApiCommand::RemoveTrustedDevice => "remove_trusted_device",
        ApiCommand::ConnectDevice => "connect_device",
        ApiCommand::ListPeers => "list_peers",
        ApiCommand::ListConnections => "list_connections",
        ApiCommand::DisconnectDevice => "disconnect_device",
        ApiCommand::ListAddons => "list_addons",
        ApiCommand::ReloadAddons => "reload_addons",
        ApiCommand::SendMessage => "send_message",
        ApiCommand::OpenChannel => "open_channel",
        ApiCommand::ChannelSend => "channel_send",
        ApiCommand::ChannelClose => "channel_close",
        ApiCommand::PollEvents => "poll_events",
        ApiCommand::WaitEvents => "wait_events",
    }
}

/// The name an argument goes by in requests.
pub open spec fn arg_label(a: ApiArg) -> Seq<char> {
    match a {
        ApiArg::SpaceId => "space_id"@,
        ApiArg::PeerId => "peer_id"@,
        ApiArg::Service => "service"@,
        ApiArg::DataB64 => "data_b64"@,
        ApiArg::ChannelId => "channel_id"@,
        ApiArg::Mac => "mac"@,
    }
}

/// The name an argument goes by in requests.
pub fn arg_name(a: ApiArg) -> (r: &'static str)
    ensures
        r@ == arg_label(a),
{
    match a {
        ApiArg::SpaceId => "space_id",
        ApiArg::PeerId => "peer_id",
        ApiArg::Service => "service",
        ApiArg::DataB64 => "data_b64",
        ApiArg::ChannelId => "channel_id",
        ApiArg::Mac => "mac",
    }
}

/// The message that reports a space error.
pub open spec fn space_error_text(e: SpaceError) -> Seq<char> {
    match e {
        SpaceError::EmptySpaceId => "space_id cannot be empty"@,
        SpaceError::DuplicateSpaceId { space_id } => "duplicate space_id: "@ + space_id@,
        SpaceError::EmptyAddonId => "addon_id cannot be empty"@,
        SpaceError::DirectSpaceHasManyMembers { space_id } => "direct space "@ + space_id@
            + " cannot contain more than one member"@,
        SpaceError::UnknownSpace { space_id } => "unknown space: "@ + space_id@,
        SpaceError::SpaceExists { space_id } => "space already exists: "@ + space_id@,
        SpaceError::TargetNotMember { space_id } => "target peer is not a member of space "@ + space_id@,
        SpaceError::NoMembers { space_id } => "space has no members: "@ + space_id@,
    }
}

/// The message that reports a space error.
pub fn space_error_message(e: &SpaceError) -> (r: String)
    ensures
        r@ == space_error_text(*e),
{
    match e {
        SpaceError::EmptySpaceId => "space_id cannot be empty".to_owned(),
        SpaceError::DuplicateSpaceId { space_id } => "duplicate space_id: ".to_owned().concat(space_id.as_str()),
        SpaceError::EmptyAddonId => "addon_id cannot be empty".to_owned(),
        SpaceError::DirectSpaceHasManyMembers { space_id } => "direct space ".to_owned().concat(space_id.as_str()).concat(
            " cannot contain more than one member",
        ),
        SpaceError::UnknownSpace { space_id } => "unknown space: ".to_owned().concat(space_id.as_str()),
        SpaceError::SpaceExists { space_id } => "space already exists: ".to_owned().concat(space_id.as_str()),
        SpaceError::TargetNotMember { space_id } => "target peer is not a member of space ".to_owned().concat(
            space_id.as_str(),
        ),
        SpaceError::NoMembers { space_id } => "space has no members: ".to_owned().concat(space_id.as_str()),
    }
}

/// The message the API answers an error with.
pub open spec fn error_text(e: ApiError) -> Seq<char> {
    match e {
        ApiError::Missing { command, arg } => command_label(command) + " requires "@ + arg_label(arg),
        ApiError::Space(se) => space_error_text(se),
        ApiError::UnknownSpace { space_id } => "unknown space: "@ + space_id@,
        ApiError::SpaceExists { space_id } => "space already exists: "@ + space_id@,
        ApiError::SpaceNotCreated => "space was not created"@,
        ApiError::TargetNotMember { space_id } => "target peer is not a member of space "@ + space_id@,
        ApiError::NoMembers { space_id } => "space has no members: "@ + space_id@,
        ApiError::NoMatchingPeer => "No nearby discovered device matched that device ID or MAC"@,
        ApiError::NotTrusted => "Device is visible, but none of its MAC addresses are trusted yet"@,
        ApiError::NoDisconnectTarget => "disconnect_device requires peer_id or a MAC matching a discovered peer"@,
        ApiError::RandomUnavailable => "the system random source is unavailable"@,
    }
}

/// The message the API answers an error with.
pub fn error_message(e: &ApiError) -> (r: String)
    ensures
        r@ == error_text(*e),
{
    match e {
        ApiError::Missing { command, arg } => command_name(*command).to_owned().concat(" requires ").concat(arg_name(*arg)),
        ApiError::Space(se) => space_error_message(se),
        ApiError::UnknownSpace { space_id } => "unknown space: ".to_owned().concat(space_id.as_str()),
        ApiError::SpaceExists { space_id } => "space already exists: ".to_owned().concat(space_id.as_str()),
        ApiError::SpaceNotCreated => "space was not created".to_owned(),
        ApiError::TargetNotMember { space_id } => "target peer is not a member of space ".to_owned().concat(
            space_id.as_str(),
        ),
        ApiError::NoMembers { space_id } => "space has no members: ".to_owned().concat(space_id.as_str()),
        ApiError::NoMatchingPeer => "No nearby discovered device matched that device ID or MAC".to_owned(),
        ApiError::NotTrusted => "Device is visible, but none of its MAC addresses are trusted yet".to_owned(),
        ApiError::NoDisconnectTarget => "disconnect_device requires peer_id or a MAC matching a discovered peer".to_owned(),
        ApiError::RandomUnavailable => "the system random source is unavailable".to_owned(),
    }
}

pub open spec fn opt_view(o: Option<String>) -> Option<Seq<char>> {
    match o {
        Some(s) => Some(s@),
        None => None,
    }
}

/// The argument if given, or the error naming it.
pub fn require(value: Option<String>, command: ApiCommand, arg: ApiArg) -> (r: Result<String, ApiError>)
    ensures
        match value {
            Some(v) => r matches Ok(x) && x@ == v@,
            None => r matches Err(ApiError::Missing { command: c, arg: a }) && c == command && a == arg,
        },
{
    match value {
        Some(v) => Ok(v),
        None => Err(ApiError::Missing { command, arg }),
    }
}

/// The most events one poll returns: 100 unless asked, and between 1 and
/// 1000.
pub fn event_limit(max_events: Option<usize>) -> (r: usize)
    ensures
        r == (match max_events {
            None => 100usize,
            Some(m) => if m < 1 {
                1usize
            } else if m > 1000 {
                1000usize
            } else {
                m
            },
        }),
{
    let m = match max_events {
        Some(m) => m,
        None => 100,
    };
    if m < 1 {
        1
    } else if m > 1000 {
        1000
    } else {
        m
    }
}

/// How long a wait for events lasts: 30 seconds unless asked, and between
/// 1 millisecond and 30 seconds.
pub fn event_wait_ms(wait_ms: Option<u64>) -> (r: u64)
    ensures
        r == (match wait_ms {
            None => 30000u64,
            Some(w) => if w < 1 {
                1u64
            } else if w > 30000 {
                30000u64
            } else {
                w
            },
        }),
{
    let w = match wait_ms {
        Some(w) => w,
        None => 30000,
    };
    if w < 1 {
        1
    } else if w > 30000 {
        30000
    } else {
        w
    }
}

/// The consumer whose events are taken: `default` unless named.
pub fn event_consumer(consumer_id: Option<String>) -> (r: String)
    ensures
        r@ == (match consumer_id {
            Some(c) => c@,
            None => "default"@,
        }),
{
    match consumer_id {
        Some(c) => c,
        None => "default".to_owned(),
    }
}

/// Why a channel is closed: `normal` unless given.
pub fn close_reason(reason: Option<String>) -> (r: String)
    ensures
        r@ == (match reason {
            Some(c) => c@,
            None => "normal"@,
        }),
{
    match reason {
        Some(c) => c,
        None => "normal".to_owned(),
    }
}

/// Spaces are listed by name, then id.
pub open spec fn by_name_id() -> spec_fn(SpaceRecordView) -> Seq<Seq<char>> {
    |s: SpaceRecordView| seq![s.name, s.space_id]
}

fn space_before(a: &SpaceRecord, b: &SpaceRecord) -> (r: bool)
    ensures
        r == keys_lt(by_name_id()(a@), by_name_id()(b@)),
{
    proof {
        lemma_keys_lt_pair(a.name@, a.space_id@, b.name@, b.space_id@);
    }
    if !str_eq(a.name.as_str(), b.name.as_str()) {
        string_lt(&a.name, &b.name)
    } else {
        string_lt(&a.space_id, &b.space_id)
    }
}

/// The spaces as the API lists them: sorted by name, then id.
pub fn list_spaces(store: &SpaceStore) -> (r: Vec<SpaceRecord>)
    ensures
        records_view(r@) == sort_by_key(store@, by_name_id()),
{
    let ghost key = by_name_id();
    let ghost src = store@;
    let mut out: Vec<SpaceRecord> = Vec::new();
    let mut i: usize = 0;
    while i < store.spaces.len()
        invariant
            src == store@,
            src.len() == store.spaces@.len(),
            key == by_name_id(),
            i <= src.len(),
            records_view(out@) == sort_by_key(src.take(i as int), key),
        decreases src.len() - i,
    {
        let x = store.spaces[i].clone();
        let mut p: usize = out.len();
        while p > 0 && space_before(&x, &out[p - 1])
            invariant
                p <= out@.len(),
                key == by_name_id(),
                forall|j: int| p <= j < out@.len() ==> keys_lt(key(x@), #[trigger] key(out@[j]@)),
            decreases p,
        {
            p = p - 1;
        }
        proof {
            let o = records_view(out@);
            assert forall|j: int| p <= j < o.len() implies keys_lt(key(x@), #[trigger] key(o[j])) by {
                assert(o[j] == out@[j]@);
            }
            if p > 0 {
                assert(o[p - 1] == out@[p - 1]@);
            }
            lemma_insert_by_key_at(o, x@, key, p as int);
            assert(src.take(i + 1).drop_last() == src.take(i as int));
            assert(src.take(i + 1).last() == x@);
        }
        let ghost before = records_view(out@);
        out.insert(p, x);
        proof {
            assert(records_view(out@) =~= before.insert(p as int, src[i as int]));
        }
        i = i + 1;
    }
    proof {
        assert(src.take(src.len() as int) == src);
    }
    out
}

/// The space with id `id` after a repair, as the API returns it.
pub open spec fn repaired_space_result(mid: Seq<SpaceRecordView>, id: Seq<char>, r: Result<SpaceRecordView, ApiError>) -> bool {
    match first_space_index(mid, id) {
        Some(i) => r == Ok::<SpaceRecordView, ApiError>(mid[i]),
        None => r matches Err(ApiError::SpaceNotCreated),
    }
}

pub open spec fn record_result_view(r: Result<SpaceRecord, ApiError>) -> Result<SpaceRecordView, ApiError> {
    match r {
        Ok(s) => Ok(s@),
        Err(e) => Err(e),
    }
}

/// Repairs the store and returns the space with the given id.
fn repair_and_find(store: &mut SpaceStore, space_id: &str) -> (r: Result<SpaceRecord, ApiError>)
    ensures
        ({
            let rv = record_result_view(r);
            match rv {
                Err(ApiError::Space(e)) => store_repair(old(store)@, final(store)@, Err(e)),
                _ => store_repair(old(store)@, final(store)@, Ok(())) && repaired_space_result(final(store)@, space_id@, rv),
            }
        }),
{
    match store.validate_and_repair() {
        Ok(()) => {},
        Err(e) => {
            return Err(ApiError::Space(e));
        },
    }
    match store.find_space(space_id) {
        Some(i) => Ok(store.spaces[i].clone()),
        None => Err(ApiError::SpaceNotCreated),
    }
}

/// What creating a space with id `id` does to the spaces `old`: it fails if
/// the id is taken; otherwise the new space (named `name`, else by its id;
/// of kind `kind`, else direct; switched off, with no members and no
/// add-ons) is appended, the store repaired into `fin`, and the space with
/// that id returned.
pub open spec fn created_space(
    old: Seq<SpaceRecordView>,
    fin: Seq<SpaceRecordView>,
    id: Seq<char>,
    name: Option<Seq<char>>,
    kind: Option<SpaceKind>,
    rv: Result<SpaceRecordView, ApiError>,
) -> bool {
    if exists|i: int| 0 <= i < old.len() && #[trigger] old[i].space_id == id {
        &&& fin == old
        &&& rv matches Err(ApiError::SpaceExists { space_id: s }) && s@ == id
    } else {
        let added = old.push(
            SpaceRecordView {
                space_id: id,
                name: match name {
                    Some(n) => n,
                    None => id,
                },
                kind: match kind {
                    Some(k) => k,
                    None => SpaceKind::Direct,
                },
                active: false,
                members: Seq::empty(),
                addons: Map::empty(),
            },
        );
        match rv {
            Err(ApiError::Space(e)) => store_repair(added, fin, Err(e)),
            _ => store_repair(added, fin, Ok(())) && repaired_space_result(fin, id, rv),
        }
    }
}

/// Creates a space with the given id; see `created_space`.
fn create_space_with_id(
    store: &mut SpaceStore,
    id: String,
    name: Option<String>,
    kind: Option<SpaceKind>,
) -> (r: Result<SpaceRecord, ApiError>)
    ensures
        created_space(old(store)@, final(store)@, id@, opt_view(name), kind, record_result_view(r)),
{
    let name = match name {
        Some(n) => n,
        None => id.clone(),
    };
    let kind = match kind {
        Some(k) => k,
        None => SpaceKind::Direct,
    };
    if store.find_space(id.as_str()).is_some() {
        proof {
            crate::spaces::lemma_first_space_index_facts(store@, id@);
        }
        return Err(ApiError::SpaceExists { space_id: id });
    }
    proof {
        crate::spaces::lemma_first_space_index_facts(store@, id@);
    }
    let ghost before = store@;
    let members: Vec<String> = Vec::new();
    let addons: StrMap<crate::spaces::SpaceAddonState> = StrMap::new();
    let rec = SpaceRecord { space_id: id.clone(), name, kind, active: false, members, addons };
    proof {
        assert(members.deep_view() =~= Seq::<Seq<char>>::empty());
        assert(rec@ == SpaceRecordView {
            space_id: id@,
            name: rec.name@,
            kind,
            active: false,
            members: Seq::empty(),
            addons: Map::empty(),
        });
    }
    let ghost rv = rec@;
    store.spaces.push(rec);
    proof {
        assert(store@ =~= before.push(rv));
    }
    repair_and_find(store, id.as_str())
}

/// A new space with the given id (a fresh UUID unless given), name (the id
/// unless given) and kind (direct unless given), no members and no
/// add-ons, switched off. The store is repaired and the new space returned.
/// Without an id, the fresh one is drawn from the random source; when that
/// fails nothing changes.
pub fn create_space(
    store: &mut SpaceStore,
    space_id: Option<String>,
    name: Option<String>,
    kind: Option<SpaceKind>,
) -> (r: Result<SpaceRecord, ApiError>)
    ensures
        ({
            let rv = record_result_view(r);
            match space_id {
                Some(id) => created_space(old(store)@, final(store)@, id@, opt_view(name), kind, rv),
                None => {
                    ||| final(store)@ == old(store)@ && rv matches Err(ApiError::RandomUnavailable)
                    ||| exists|g: Seq<char>|
                        is_uuid_v4_text(g) && #[trigger] created_space(old(store)@, final(store)@, g, opt_view(name), kind, rv)
                },
            }
        }),
{
    match space_id {
        Some(id) => create_space_with_id(store, id, name, kind),
        None => match new_uuid_v4() {
            Ok(g) => {
                let ghost nv = opt_view(name);
                let r = create_space_with_id(store, g, name, kind);
                proof {
                    assert(created_space(old(store)@, store@, g@, nv, kind, record_result_view(r)));
                }
                r
            },
            Err(_) => Err(ApiError::RandomUnavailable),
        },
    }
}

/// The space `space_id` with its members changed by `edit`.
pub open spec fn members_edited(spaces: Seq<SpaceRecordView>, i: int, members: Seq<Seq<char>>) -> Seq<SpaceRecordView> {
    spaces.update(i, SpaceRecordView { members, ..spaces[i] })
}

/// Adds a member to a space, then repairs the store and returns the space.
pub fn add_space_member(store: &mut SpaceStore, space_id: Option<String>, peer_id: Option<String>) -> (r: Result<
    SpaceRecord,
    ApiError,
>)
    ensures
        ({
            let rv = record_result_view(r);
            if space_id is None {
                final(store)@ == old(store)@ && r matches Err(ApiError::Missing { command: ApiCommand::AddSpaceMember, arg: ApiArg::SpaceId })
            } else if peer_id is None {
                final(store)@ == old(store)@ && r matches Err(ApiError::Missing { command: ApiCommand::AddSpaceMember, arg: ApiArg::PeerId })
            } else {
                let id = space_id->Some_0@;
                match first_space_index(old(store)@, id) {
                    None => {
                        &&& final(store)@ == old(store)@
                        &&& r matches Err(ApiError::UnknownSpace { space_id: s }) && s@ == id
                    },
                    Some(i) => {
                        let mid = members_edited(old(store)@, i, old(store)@[i].members.push(peer_id->Some_0@));
                        match rv {
                            Err(ApiError::Space(e)) => store_repair(mid, final(store)@, Err(e)),
                            _ => store_repair(mid, final(store)@, Ok(())) && repaired_space_result(final(store)@, id, rv),
                        }
                    },
                }
            }
        }),
{
    let id = require(space_id, ApiCommand::AddSpaceMember, ApiArg::SpaceId)?;
    let peer = require(peer_id, ApiCommand::AddSpaceMember, ApiArg::PeerId)?;
    let i = match store.find_space(id.as_str()) {
        Some(i) => i,
        None => {
            return Err(ApiError::UnknownSpace { space_id: id });
        },
    };
    let ghost before = store@;
    let mut space = store.spaces.remove(i);
    let ghost pv = peer@;
    let ghost bm = space.members.deep_view();
    space.members.push(peer);
    proof {
        assert(space.members.deep_view() =~= bm.push(pv));
    }
    let ghost sv = space@;
    store.spaces.insert(i, space);
    proof {
        assert(sv == SpaceRecordView { members: before[i as int].members.push(pv), ..before[i as int] });
        assert(store@ =~= members_edited(before, i as int, before[i as int].members.push(pv)));
    }
    repair_and_find(store, id.as_str())
}

/// Removes every occurrence of a member from a space, then repairs the
/// store and returns the space.
pub fn remove_space_member(store: &mut SpaceStore, space_id: Option<String>, peer_id: Option<String>) -> (r: Result<
    SpaceRecord,
    ApiError,
>)
    ensures
        ({
            let rv = record_result_view(r);
            if space_id is None {
                final(store)@ == old(store)@ && r matches Err(ApiError::Missing { command: ApiCommand::RemoveSpaceMember, arg: ApiArg::SpaceId })
            } else if peer_id is None {
                final(store)@ == old(store)@ && r matches Err(ApiError::Missing { command: ApiCommand::RemoveSpaceMember, arg: ApiArg::PeerId })
            } else {
                let id = space_id->Some_0@;
                match first_space_index(old(store)@, id) {
                    None => {
                        &&& final(store)@ == old(store)@
                        &&& r matches Err(ApiError::UnknownSpace { space_id: s }) && s@ == id
                    },
                    Some(i) => {
                        let mid = members_edited(
                            old(store)@,
                            i,
                            crate::membership::members_without(old(store)@[i].members, peer_id->Some_0@),
                        );
                        match rv {
                            Err(ApiError::Space(e)) => store_repair(mid, final(store)@, Err(e)),
                            _ => store_repair(mid, final(store)@, Ok(())) && repaired_space_result(final(store)@, id, rv),
                        }
                    },
                }
            }
        }),
{
    let id = require(space_id, ApiCommand::RemoveSpaceMember, ApiArg::SpaceId)?;
    let peer = require(peer_id, ApiCommand::RemoveSpaceMember, ApiArg::PeerId)?;
    let i = match store.find_space(id.as_str()) {
        Some(i) => i,
        None => {
            return Err(ApiError::UnknownSpace { space_id: id });
        },
    };
    let ghost before = store@;
    let mut space = store.spaces.remove(i);
    space.members = crate::membership::remove_member(&space.members, peer.as_str());
    let ghost sv = space@;
    store.spaces.insert(i, space);
    proof {
        assert(store@ =~= members_edited(
            before,
            i as int,
            crate::membership::members_without(before[i as int].members, peer@),
        ));
    }
    repair_and_find(store, id.as_str())
}

/// The peers a space message goes to: the target if one is named (it must
/// be a member), or else every member; there must be at least one.
pub fn space_message_targets(store: &SpaceStore, space_id: &str, target_peer_id: &Option<String>) -> (r: Result<
    Vec<String>,
    ApiError,
>)
    ensures
        match first_space_index(store@, space_id@) {
            None => r matches Err(ApiError::UnknownSpace { space_id: s }) && s@ == space_id@,
            Some(i) => {
                let members = store@[i].members;
                match target_peer_id {
                    Some(t) => if members.contains(t@) {
                        r matches Ok(v) && v.deep_view() == seq![t@]
                    } else {
                        r matches Err(ApiError::TargetNotMember { space_id: s }) && s@ == space_id@
                    },
                    None => if members.len() == 0 {
                        r matches Err(ApiError::NoMembers { space_id: s }) && s@ == space_id@
                    } else {
                        r matches Ok(v) && v.deep_view() == members
                    },
                }
            },
        },
{
    let i = match store.find_space(space_id) {
        Some(i) => i,
        None => {
            return Err(ApiError::UnknownSpace { space_id: space_id.to_owned() });
        },
    };
    let space = &store.spaces[i];
    let targets = match target_peer_id {
        Some(t) => {
            if !contains_str(&space.members, t.as_str()) {
                return Err(ApiError::TargetNotMember { space_id: space_id.to_owned() });
            }
            let mut v: Vec<String> = Vec::new();
            v.push(t.clone());
            proof {
                assert(v.deep_view() =~= seq![t@]);
            }
            v
        },
        None => clone_strings(&space.members),
    };
    if targets.len() == 0 {
        return Err(ApiError::NoMembers { space_id: space_id.to_owned() });
    }
    Ok(targets)
}

/// What the API reads of a discovered peer.
pub struct PeerSummary {
    pub device_id: String,
    pub device_name: String,
    pub macs: Vec<String>,
}

pub struct PeerSummaryView {
    pub device_id: Seq<char>,
    pub device_name: Seq<char>,
    pub macs: Seq<Seq<char>>,
}

impl View for PeerSummary {
    type V = PeerSummaryView;

    open spec fn view(&self) -> PeerSummaryView {
        PeerSummaryView { device_id: self.device_id@, device_name: self.device_name@, macs: self.macs.deep_view() }
    }
}

pub open spec fn peers_view(s: Seq<PeerSummary>) -> Seq<PeerSummaryView> {
    s.map_values(|p: PeerSummary| p@)
}

/// Whether a peer is the one a connect request names: by device id, or by
/// one of its addresses.
pub open spec fn connect_match(p: PeerSummaryView, peer_id: Option<Seq<char>>, mac: Option<Seq<char>>) -> bool {
    (peer_id matches Some(id) && p.device_id == id) || (mac matches Some(m) && matches_any(p.macs, seq![normalized_mac(m)]))
}

/// The first peer a connect request names.
pub fn find_connect_target(peers: &Vec<PeerSummary>, peer_id: &Option<String>, mac: &Option<String>) -> (r: Option<usize>)
    ensures
        match r {
            Some(i) => i < peers@.len() && connect_match(peers@[i as int]@, opt_view(*peer_id), opt_view(*mac)) && forall|j: int|
                0 <= j < i ==> !connect_match(#[trigger] peers@[j]@, opt_view(*peer_id), opt_view(*mac)),
            None => forall|j: int| 0 <= j < peers@.len() ==> !connect_match(#[trigger] peers@[j]@, opt_view(*peer_id), opt_view(*mac)),
        },
{
    let wanted: Option<Vec<String>> = match mac {
        Some(m) => {
            let mut v: Vec<String> = Vec::new();
            v.push(normalize_mac(m.as_str()));
            Some(v)
        },
        None => None,
    };
    let mut i: usize = 0;
    while i < peers.len()
        invariant
            i <= peers@.len(),
            match mac {
                Some(m) => wanted matches Some(v) && v.deep_view() == seq![normalized_mac(m@)],
                None => wanted is None,
            },
            forall|j: int| 0 <= j < i ==> !connect_match(#[trigger] peers@[j]@, opt_view(*peer_id), opt_view(*mac)),
        decreases peers@.len() - i,
    {
        let p = &peers[i];
        let by_id = match peer_id {
            Some(id) => str_eq(p.device_id.as_str(), id.as_str()),
            None => false,
        };
        let by_mac = match &wanted {
            Some(v) => {
                proof {
                    assert(v.deep_view() =~= seq![normalized_mac(mac->Some_0@)]);
                }
                crate::config::any_mac_matches(&p.macs, v)
            },
            None => false,
        };
        if by_id || by_mac {
            return Some(i);
        }
        i = i + 1;
    }
    None
}

/// The ids of the first `n` peers that have an address with the canonical
/// form `m`.
pub open spec fn mac_peer_ids(peers: Seq<PeerSummaryView>, n: int, m: Seq<char>) -> Set<Seq<char>> {
    Set::new(|d: Seq<char>| exists|j: int| 0 <= j < n && peers[j].device_id == d && #[trigger] matches_any(peers[j].macs, seq![m]))
}

proof fn lemma_mac_peer_ids_step(peers: Seq<PeerSummaryView>, n: int, m: Seq<char>)
    requires
        0 <= n < peers.len(),
    ensures
        mac_peer_ids(peers, n + 1, m) == if matches_any(peers[n].macs, seq![m]) {
            mac_peer_ids(peers, n, m).insert(peers[n].device_id)
        } else {
            mac_peer_ids(peers, n, m)
        },
{
    let a = mac_peer_ids(peers, n + 1, m);
    let b = if matches_any(peers[n].macs, seq![m]) {
        mac_peer_ids(peers, n, m).insert(peers[n].device_id)
    } else {
        mac_peer_ids(peers, n, m)
    };
    assert forall|d: Seq<char>| #[trigger] a.contains(d) <==> b.contains(d) by {
        if a.contains(d) {
            let j = choose|j: int| 0 <= j < n + 1 && peers[j].device_id == d && #[trigger] matches_any(peers[j].macs, seq![m]);
            if j < n {
                assert(mac_peer_ids(peers, n, m).contains(d));
            }
        }
        if mac_peer_ids(peers, n, m).contains(d) {
            let j = choose|j: int| 0 <= j < n && peers[j].device_id == d && #[trigger] matches_any(peers[j].macs, seq![m]);
            assert(a.contains(d));
        }
    }
    assert(a =~= b);
}

/// The peers to disconnect for a request: the named peer and every
/// discovered peer with the named address, sorted and each once.
pub fn disconnect_targets(peers: &Vec<PeerSummary>, peer_id: &Option<String>, mac: &Option<String>) -> (r: Result<
    Vec<String>,
    ApiError,
>)
    ensures
        ({
            let named: Set<Seq<char>> = match *peer_id {
                Some(id) => set![id@],
                None => Set::empty(),
            };
            let by_mac: Set<Seq<char>> = match *mac {
                Some(m) => mac_peer_ids(peers_view(peers@), peers@.len() as int, normalized_mac(m@)),
                None => Set::empty(),
            };
            let all = named.union(by_mac);
            if all.len() == 0 {
                r matches Err(ApiError::NoDisconnectTarget)
            } else {
                r matches Ok(v) && v.deep_view() == sorted_seq_of(all)
            }
        }),
{
    let ghost pv = peers_view(peers@);
    let mut ids: Vec<String> = Vec::new();
    match peer_id {
        Some(id) => {
            ids.push(id.clone());
        },
        None => {},
    }
    let ghost start = ids.deep_view();
    proof {
        assert(start.to_set() =~= match *peer_id {
            Some(id) => set![id@],
            None => Set::<Seq<char>>::empty(),
        }) by {
            if peer_id is Some {
                assert(start =~= seq![peer_id->Some_0@]);
                assert(start.to_set().contains(peer_id->Some_0@)) by {
                    assert(start[0] == peer_id->Some_0@);
                }
            }
        }
    }
    match mac {
        Some(m) => {
            let wanted_mac = normalize_mac(m.as_str());
            let ghost mv = wanted_mac@;
            let mut wanted: Vec<String> = Vec::new();
            wanted.push(wanted_mac);
            proof {
                assert(wanted.deep_view() =~= seq![mv]);
                assert(mac_peer_ids(pv, 0, mv) =~= Set::<Seq<char>>::empty());
            }
            let mut i: usize = 0;
            while i < peers.len()
                invariant
                    pv == peers_view(peers@),
                    i <= peers@.len(),
                    wanted.deep_view() == seq![mv],
                    ids.deep_view().to_set() == start.to_set().union(mac_peer_ids(pv, i as int, mv)),
                decreases peers@.len() - i,
            {
                let p = &peers[i];
                proof {
                    assert(pv[i as int] == p@);
                    lemma_mac_peer_ids_step(pv, i as int, mv);
                }
                let hit = crate::config::any_mac_matches(&p.macs, &wanted);
                let ghost before = ids.deep_view();
                if hit {
                    ids.push(p.device_id.clone());
                    proof {
                        assert(ids.deep_view() =~= before.push(p.device_id@));
                        before.lemma_push_to_set_commute(p.device_id@);
                    }
                }
                proof {
                    assert(ids.deep_view().to_set() =~= start.to_set().union(mac_peer_ids(pv, i + 1, mv)));
                }
                i = i + 1;
            }
        },
        None => {},
    }
    let sorted = sort_dedup(&ids);
    proof {
        crate::text::lemma_strictly_sorted_no_duplicates(sorted.deep_view());
        sorted.deep_view().unique_seq_to_set();
        assert(ids.deep_view().to_set() =~= (match *peer_id {
            Some(id) => set![id@],
            None => Set::<Seq<char>>::empty(),
        }).union(match *mac {
            Some(m) => mac_peer_ids(pv, peers@.len() as int, normalized_mac(m@)),
            None => Set::<Seq<char>>::empty(),
        }));
        let w = choose|r: Seq<Seq<char>>| crate::text::strictly_sorted(r) && r.to_set() == ids.deep_view().to_set();
        crate::text::lemma_strictly_sorted_unique(sorted.deep_view(), w);
    }
    if sorted.len() == 0 {
        return Err(ApiError::NoDisconnectTarget);
    }
    Ok(sorted)
}

/// What a connect request finds.
#[derive(Clone, Copy, Debug, PartialEq, Eq, Structural)]
pub enum ConnectStatus {
    AlreadyConnected,
    AlreadyConnecting,
    /// A connection is to be opened; the peer now counts as connecting.
    Connecting,
}

/// Whether peer `i` is the first that a connect request names.
pub open spec fn first_connect_match(peers: Seq<PeerSummaryView>, i: int, peer_id: Option<Seq<char>>, mac: Option<Seq<char>>) -> bool {
    &&& 0 <= i < peers.len()
    &&& connect_match(peers[i], peer_id, mac)
    &&& forall|j: int| 0 <= j < i ==> !connect_match(#[trigger] peers[j], peer_id, mac)
}

/// Decides a connect request: the first discovered peer it names must have
/// an address of a trusted device that is not blocked; it is then already
/// connected, already connecting, or to be connected. Returns the peer's
/// position and what to do.
pub fn decide_connect(
    peers: &Vec<PeerSummary>,
    devices: &Vec<crate::config::TrustedDevice>,
    connected: &crate::strset::StrSet,
    connecting: &crate::strset::StrSet,
    peer_id: &Option<String>,
    mac: &Option<String>,
) -> (r: Result<(usize, ConnectStatus), ApiError>)
    ensures
        ({
            let pv = peers_view(peers@);
            let ids = opt_view(*peer_id);
            let ms = opt_view(*mac);
            match r {
                Ok((i, st)) => {
                    &&& first_connect_match(pv, i as int, ids, ms)
                    &&& crate::config::trusted_by(
                        crate::config::devices_view(devices@),
                        normalized_macs(pv[i as int].macs),
                    )
                    &&& st == if connected@.contains(pv[i as int].device_id) {
                        ConnectStatus::AlreadyConnected
                    } else if connecting@.contains(pv[i as int].device_id) {
                        ConnectStatus::AlreadyConnecting
                    } else {
                        ConnectStatus::Connecting
                    }
                },
                Err(ApiError::NoMatchingPeer) => forall|j: int| 0 <= j < pv.len() ==> !connect_match(#[trigger] pv[j], ids, ms),
                Err(ApiError::NotTrusted) => exists|i: int|
                    first_connect_match(pv, i, ids, ms) && !crate::config::trusted_by(
                        crate::config::devices_view(devices@),
                        normalized_macs(#[trigger] pv[i].macs),
                    ),
                Err(_) => false,
            }
        }),
{
    let i = match find_connect_target(peers, peer_id, mac) {
        Some(i) => i,
        None => {
            return Err(ApiError::NoMatchingPeer);
        },
    };
    let peer = &peers[i];
    proof {
        assert(peers_view(peers@)[i as int] == peer@);
    }
    let trusted = crate::config::mac_is_trusted(devices, &peer.macs);
    proof {
        let pv = peers_view(peers@);
        assert(pv[i as int].macs == peer.macs.deep_view());
        assert(first_connect_match(pv, i as int, opt_view(*peer_id), opt_view(*mac)));
        assert(trusted == crate::config::trusted_by(
            crate::config::devices_view(devices@),
            normalized_macs(pv[i as int].macs),
        ));
    }
    if !trusted {
        return Err(ApiError::NotTrusted);
    }
    let id = peer.device_id.as_str();
    if connected.contains(id) {
        Ok((i, ConnectStatus::AlreadyConnected))
    } else if connecting.contains(id) {
        Ok((i, ConnectStatus::AlreadyConnecting))
    } else {
        Ok((i, ConnectStatus::Connecting))
    }
}

/// The ids recorded on the first `n` trusted devices that have an address
/// with the canonical form `m`.
pub open spec fn mac_device_ids(devs: Seq<crate::config::TrustedDeviceView>, n: int, m: Seq<char>) -> Set<Seq<char>> {
    Set::new(
        |d: Seq<char>|
            exists|j: int| 0 <= j < n && devs[j].device_id == Some(d) && #[trigger] matches_any(devs[j].macs, seq![m]),
    )
}

proof fn lemma_mac_device_ids_step(devs: Seq<crate::config::TrustedDeviceView>, n: int, m: Seq<char>)
    requires
        0 <= n < devs.len(),
    ensures
        mac_device_ids(devs, n + 1, m) == if matches_any(devs[n].macs, seq![m]) && devs[n].device_id is Some {
            mac_device_ids(devs, n, m).insert(devs[n].device_id->Some_0)
        } else {
            mac_device_ids(devs, n, m)
        },
{
    let a = mac_device_ids(devs, n + 1, m);
    let b = if matches_any(devs[n].macs, seq![m]) && devs[n].device_id is Some {
        mac_device_ids(devs, n, m).insert(devs[n].device_id->Some_0)
    } else {
        mac_device_ids(devs, n, m)
    };
    assert forall|d: Seq<char>| #[trigger] a.contains(d) <==> b.contains(d) by {
        if a.contains(d) {
            let j = choose|j: int| 0 <= j < n + 1 && devs[j].device_id == Some(d) && #[trigger] matches_any(devs[j].macs, seq![m]);
            if j < n {
                assert(mac_device_ids(devs, n, m).contains(d));
            }
        }
        if mac_device_ids(devs, n, m).contains(d) {
            let j = choose|j: int| 0 <= j < n && devs[j].device_id == Some(d) && #[trigger] matches_any(devs[j].macs, seq![m]);
            assert(a.contains(d));
        }
    }
    assert(a =~= b);
}

/// The peers to disconnect when an address stops being trusted: those the
/// trusted devices with that address were recorded as, and the discovered
/// peers with that address, sorted, each once.
pub fn untrusted_peer_ids(
    devices: &Vec<crate::config::TrustedDevice>,
    peers: &Vec<PeerSummary>,
    mac: &str,
) -> (r: Vec<String>)
    ensures
        ({
            let m = normalized_mac(mac@);
            r.deep_view() == sorted_seq_of(
                mac_device_ids(crate::config::devices_view(devices@), devices@.len() as int, m).union(
                    mac_peer_ids(peers_view(peers@), peers@.len() as int, m),
                ),
            )
        }),
{
    let wanted_mac = normalize_mac(mac);
    let ghost mv = wanted_mac@;
    let ghost dv = crate::config::devices_view(devices@);
    let ghost pv = peers_view(peers@);
    let mut wanted: Vec<String> = Vec::new();
    wanted.push(wanted_mac);
    let mut ids: Vec<String> = Vec::new();
    proof {
        assert(wanted.deep_view() =~= seq![mv]);
        assert(mac_device_ids(dv, 0, mv) =~= Set::<Seq<char>>::empty());
        assert(mac_peer_ids(pv, 0, mv) =~= Set::<Seq<char>>::empty());
        assert(ids.deep_view().to_set() =~= Set::<Seq<char>>::empty());
    }
    let mut i: usize = 0;
    while i < devices.len()
        invariant
            dv == crate::config::devices_view(devices@),
            i <= devices@.len(),
            wanted.deep_view() == seq![mv],
            ids.deep_view().to_set() == mac_device_ids(dv, i as int, mv),
        decreases devices@.len() - i,
    {
        let d = &devices[i];
        proof {
            assert(dv[i as int] == d@);
            lemma_mac_device_ids_step(dv, i as int, mv);
        }
        let hit = crate::config::any_mac_matches(&d.macs, &wanted);
        let ghost before = ids.deep_view();
        if hit {
            match &d.device_id {
                Some(id) => {
                    ids.push(id.clone());
                    proof {
                        assert(ids.deep_view() =~= before.push(id@));
                        before.lemma_push_to_set_commute(id@);
                    }
                },
                None => {},
            }
        }
        proof {
            assert(ids.deep_view().to_set() =~= mac_device_ids(dv, i + 1, mv));
        }
        i = i + 1;
    }
    let ghost from_devices = ids.deep_view().to_set();
    let mut k: usize = 0;
    while k < peers.len()
        invariant
            pv == peers_view(peers@),
            k <= peers@.len(),
            wanted.deep_view() == seq![mv],
            ids.deep_view().to_set() == from_devices.union(mac_peer_ids(pv, k as int, mv)),
        decreases peers@.len() - k,
    {
        let p = &peers[k];
        proof {
            assert(pv[k as int] == p@);
            lemma_mac_peer_ids_step(pv, k as int, mv);
        }
        let hit = crate::config::any_mac_matches(&p.macs, &wanted);
        let ghost before = ids.deep_view();
        if hit {
            ids.push(p.device_id.clone());
            proof {
                assert(ids.deep_view() =~= before.push(p.device_id@));
                before.lemma_push_to_set_commute(p.device_id@);
            }
        }
        proof {
            assert(ids.deep_view().to_set() =~= from_devices.union(mac_peer_ids(pv, k + 1, mv)));
        }
        k = k + 1;
    }
    sort_dedup(&ids)
}

/// A discovered peer as the local API lists it.
pub struct PeerRow {
    pub device_id: String,
    pub device_name: String,
    pub addr: String,
    pub macs: Vec<String>,
    pub trusted: bool,
    pub trusted_name: Option<String>,
    pub connected: bool,
    pub last_seen_ms_ago: u64,
}

pub struct PeerRowView {
    pub device_id: Seq<char>,
    pub device_name: Seq<char>,
    pub addr: Seq<char>,
    pub macs: Seq<Seq<char>>,
    pub trusted: bool,
    pub trusted_name: Option<Seq<char>>,
    pub connected: bool,
    pub last_seen_ms_ago: u64,
}

impl View for PeerRow {
    type V = PeerRowView;

    open spec fn view(&self) -> PeerRowView {
        PeerRowView {
            device_id: self.device_id@,
            device_name: self.device_name@,
            addr: self.addr@,
            macs: self.macs.deep_view(),
            trusted: self.trusted,
            trusted_name: opt_view(self.trusted_name),
            connected: self.connected,
            last_seen_ms_ago: self.last_seen_ms_ago,
        }
    }
}

pub open spec fn rows_view(s: Seq<PeerRow>) -> Seq<PeerRowView> {
    s.map_values(|r: PeerRow| r@)
}

/// The row of a discovered peer: whether a trusted device that is not
/// blocked has one of its addresses, and the name of the first such device,
/// whether it is connected, and how long ago it was heard (none when the
/// clock reads earlier).
pub open spec fn row_of(
    p: crate::discovery::PeerRecordView,
    dv: Seq<crate::config::TrustedDeviceView>,
    connected: Set<Seq<char>>,
    now: u64,
) -> PeerRowView {
    let ns = normalized_macs(p.macs);
    PeerRowView {
        device_id: p.device_id,
        device_name: p.device_name,
        addr: p.addr,
        macs: p.macs,
        trusted: crate::config::trusted_by(dv, ns),
        trusted_name: match crate::config::first_device(dv, crate::config::device_pred(ns, true)) {
            Some(i) => Some(dv[i].name),
            None => None,
        },
        connected: connected.contains(p.device_id),
        last_seen_ms_ago: if now >= p.last_seen_ms {
            (now - p.last_seen_ms) as u64
        } else {
            0
        },
    }
}

pub open spec fn by_device_name() -> spec_fn(PeerRowView) -> Seq<Seq<char>> {
    |r: PeerRowView| seq![r.device_name]
}

pub open spec fn records_rows(
    records: Seq<crate::discovery::PeerRecord>,
    dv: Seq<crate::config::TrustedDeviceView>,
    connected: Set<Seq<char>>,
    now: u64,
) -> Seq<PeerRowView> {
    records.map_values(|p: crate::discovery::PeerRecord| row_of(p@, dv, connected, now))
}

fn peer_row(
    p: &crate::discovery::PeerRecord,
    devices: &Vec<crate::config::TrustedDevice>,
    connected: &crate::strset::StrSet,
    now_ms: u64,
) -> (r: PeerRow)
    ensures
        r@ == row_of(p@, crate::config::devices_view(devices@), connected@, now_ms),
{
    let trusted = crate::config::mac_is_trusted(devices, &p.macs);
    let trusted_name = crate::config::trusted_name_for_macs(devices, &p.macs);
    let ago = if now_ms >= p.last_seen_ms {
        now_ms - p.last_seen_ms
    } else {
        0
    };
    let r = PeerRow {
        device_id: p.device_id.clone(),
        device_name: p.device_name.clone(),
        addr: p.addr.clone(),
        macs: clone_strings(&p.macs),
        trusted,
        trusted_name,
        connected: connected.contains(p.device_id.as_str()),
        last_seen_ms_ago: ago,
    };
    proof {
        assert(opt_view(r.trusted_name) == match crate::config::first_device(
            crate::config::devices_view(devices@),
            crate::config::device_pred(normalized_macs(p@.macs), true),
        ) {
            Some(i) => Some(crate::config::devices_view(devices@)[i].name),
            None => None,
        });
    }
    r
}

/// The rows of the discovered peers, sorted by device name; peers with the
/// same name keep the order they were given in.
pub fn peer_rows(
    records: &Vec<crate::discovery::PeerRecord>,
    devices: &Vec<crate::config::TrustedDevice>,
    connected: &crate::strset::StrSet,
    now_ms: u64,
) -> (r: Vec<PeerRow>)
    ensures
        rows_view(r@) == sort_by_key(
            records_rows(records@, crate::config::devices_view(devices@), connected@, now_ms),
            by_device_name(),
        ),
{
    let ghost key = by_device_name();
    let ghost src = records_rows(records@, crate::config::devices_view(devices@), connected@, now_ms);
    let mut out: Vec<PeerRow> = Vec::new();
    let mut i: usize = 0;
    while i < records.len()
        invariant
            src == records_rows(records@, crate::config::devices_view(devices@), connected@, now_ms),
            key == by_device_name(),
            i <= records@.len(),
            rows_view(out@) == sort_by_key(src.take(i as int), key),
        decreases records@.len() - i,
    {
        let x = peer_row(&records[i], devices, connected, now_ms);
        let mut p: usize = out.len();
        while p > 0 && string_lt(&x.device_name, &out[p - 1].device_name)
            invariant
                p <= out@.len(),
                key == by_device_name(),
                forall|j: int| p <= j < out@.len() ==> keys_lt(key(x@), #[trigger] key(out@[j]@)),
            decreases p,
        {
            proof {
                crate::order::lemma_keys_lt_single(x@.device_name, out@[p - 1]@.device_name);
            }
            p = p - 1;
        }
        proof {
            if p > 0 {
                crate::order::lemma_keys_lt_single(x@.device_name, out@[p - 1]@.device_name);
            }
            let o = rows_view(out@);
            assert forall|j: int| p <= j < o.len() implies keys_lt(key(x@), #[trigger] key(o[j])) by {
                assert(o[j] == out@[j]@);
            }
            if p > 0 {
                assert(o[p - 1] == out@[p - 1]@);
            }
            lemma_insert_by_key_at(o, x@, key, p as int);
            assert(src.take(i + 1).drop_last() == src.take(i as int));
            assert(src.take(i + 1).last() == x@);
        }
        let ghost before = rows_view(out@);
        let ghost xv = x@;
        out.insert(p, x);
        proof {
            assert(rows_view(out@) =~= before.insert(p as int, xv));
        }
        i = i + 1;
    }
    proof {
        assert(src.take(records@.len() as int) == src);
    }
    out
}

/// A live connection as the local API lists it.
pub struct ConnectionRow {
    pub device_id: String,
    pub device_name: String,
    pub addr: String,
    pub connected_ms_ago: u64,
    pub last_seen_ms_ago: u64,
}

pub struct ConnectionRowView {
    pub device_id: Seq<char>,
    pub device_name: Seq<char>,
    pub addr: Seq<char>,
    pub connected_ms_ago: u64,
    pub last_seen_ms_ago: u64,
}

impl View for ConnectionRow {
    type V = ConnectionRowView;

    open spec fn view(&self) -> ConnectionRowView {
        ConnectionRowView {
            device_id: self.device_id@,
            device_name: self.device_name@,
            addr: self.addr@,
            connected_ms_ago: self.connected_ms_ago,
            last_seen_ms_ago: self.last_seen_ms_ago,
        }
    }
}

pub open spec fn connection_rows_view(s: Seq<ConnectionRow>) -> Seq<ConnectionRowView> {
    s.map_values(|r: ConnectionRow| r@)
}

/// Connections are listed by device name.
pub open spec fn by_connection_name() -> spec_fn(ConnectionRowView) -> Seq<Seq<char>> {
    |r: ConnectionRowView| seq![r.device_name]
}

fn copy_connection_row(r: &ConnectionRow) -> (c: ConnectionRow)
    ensures
        c@ == r@,
{
    ConnectionRow {
        device_id: r.device_id.clone(),
        device_name: r.device_name.clone(),
        addr: r.addr.clone(),
        connected_ms_ago: r.connected_ms_ago,
        last_seen_ms_ago: r.last_seen_ms_ago,
    }
}

/// The live connections sorted by device name; connections with the same
/// name keep the order they were given in.
pub fn sort_connection_rows(rows: &Vec<ConnectionRow>) -> (r: Vec<ConnectionRow>)
    ensures
        connection_rows_view(r@) == sort_by_key(connection_rows_view(rows@), by_connection_name()),
{
    let ghost key = by_connection_name();
    let ghost src = connection_rows_view(rows@);
    let mut out: Vec<ConnectionRow> = Vec::new();
    let mut i: usize = 0;
    while i < rows.len()
        invariant
            src == connection_rows_view(rows@),
            key == by_connection_name(),
            i <= rows@.len(),
            connection_rows_view(out@) == sort_by_key(src.take(i as int), key),
        decreases rows@.len() - i,
    {
        let x = copy_connection_row(&rows[i]);
        let mut p: usize = out.len();
        while p > 0 && string_lt(&x.device_name, &out[p - 1].device_name)
            invariant
                p <= out@.len(),
                key == by_connection_name(),
                forall|j: int| p <= j < out@.len() ==> keys_lt(key(x@), #[trigger] key(out@[j]@)),
            decreases p,
        {
            proof {
                crate::order::lemma_keys_lt_single(x@.device_name, out@[p - 1]@.device_name);
            }
            p = p - 1;
        }
        proof {
            if p > 0 {
                crate::order::lemma_keys_lt_single(x@.device_name, out@[p - 1]@.device_name);
            }
            let o = connection_rows_view(out@);
            assert forall|j: int| p <= j < o.len() implies keys_lt(key(x@), #[trigger] key(o[j])) by {
                assert(o[j] == out@[j]@);
            }
            if p > 0 {
                assert(o[p - 1] == out@[p - 1]@);
            }
            lemma_insert_by_key_at(o, x@, key, p as int);
            assert(src.take(i + 1).drop_last() == src.take(i as int));
            assert(src.take(i + 1).last() == x@);
        }
        let ghost before = connection_rows_view(out@);
        let ghost xv = x@;
        out.insert(p, x);
        proof {
            assert(connection_rows_view(out@) =~= before.insert(p as int, xv));
        }
        i = i + 1;
    }
    proof {
        assert(src.take(rows@.len() as int) == src);
    }
    out
}

} // verus!
