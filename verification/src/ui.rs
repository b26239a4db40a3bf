//! The text logic of the desktop control panel and the log viewer: job
//! names, event titles, shortened labels, which log lines matter, and the
//! requests the controller window sends.
use crate::external::string_push;
use crate::text::{trim, trim_str};
use vstd::prelude::*;
use vstd::string::StrSliceExecFns;
use vstd::string::StringExecFns;
use vstd::string::StringSliceAdditionalSpecFns;

verus! {

/// A request the control panel makes of the core.
#[allow(inconsistent_fields)]
pub enum ApiJob {
    Status,
    Paths,
    Peers,
    Trusted,
    Connections,
    Addons,
    Spaces,
    CreateSpace { name: String, kind: String },
    ActivateSpace { space_id: String },
    DeactivateSpace { space_id: String },
    AddSpaceMember { space_id: String, peer_id: String },
    RemoveSpaceMember { space_id: String, peer_id: String },
    AcceptSpaceInvite { space_id: String },
    DeclineSpaceInvite { space_id: String },
    LeaveSpace { space_id: String },
    DeleteSpace { space_id: String },
    PollEvents { service: Option<String> },
    AddTrusted { name: String, mac: String },
    RemoveTrusted { mac: String },
    Connect { mac: Option<String>, peer_id: Option<String> },
    Disconnect { mac: Option<String>, peer_id: Option<String> },
    Shutdown,
}

/// The name a job is reported under.
pub open spec fn job_label(job: &ApiJob) -> Seq<char> {
    match job {
        ApiJob::Status => "status"@,
        ApiJob::Paths => "paths"@,
        ApiJob::Peers => "peers"@,
        ApiJob::Trusted => "trusted"@,
        ApiJob::Connections => "connections"@,
        ApiJob::Addons => "addons"@,
        ApiJob::Spaces => "spaces"@,
        ApiJob::CreateSpace { .. } => "create_space"@,
        ApiJob::ActivateSpace { .. } => "activate_space"@,
        ApiJob::DeactivateSpace { .. } => "deactivate_space"@,
        ApiJob::AddSpaceMember { .. } => "add_space_member"@,
        ApiJob::RemoveSpaceMember { .. } => "remove_space_member"@,
        ApiJob::AcceptSpaceInvite { .. } => "accept_space_invite"@,
        ApiJob::DeclineSpaceInvite { .. } => "decline_space_invite"@,
        ApiJob::LeaveSpace { .. } => "leave_space"@,
        ApiJob::DeleteSpace { .. } => "delete_space"@,
        ApiJob::PollEvents { .. } => "poll_events"@,
        ApiJob::AddTrusted { .. } => "add_trusted"@,
        ApiJob::RemoveTrusted { .. } => "remove_trusted"@,
        ApiJob::Connect { .. } => "connect"@,
        ApiJob::Disconnect { .. } => "disconnect"@,
        ApiJob::Shutdown => "shutdown"@,
    }
}

/// The name a job is reported under.
pub fn job_name(job: &ApiJob) -> (r: &'static str)
    ensures
        r@ == job_label(job),
{
    match job {
        ApiJob::Status => "status",
        ApiJob::Paths => "paths",
        ApiJob::Peers => "peers",
        ApiJob::Trusted => "trusted",
        ApiJob::Connections => "connections",
        ApiJob::Addons => "addons",
        ApiJob::Spaces => "spaces",
        ApiJob::CreateSpace { .. } => "create_space",
        ApiJob::ActivateSpace { .. } => "activate_space",
        ApiJob::DeactivateSpace { .. } => "deactivate_space",
        ApiJob::AddSpaceMember { .. } => "add_space_member",
        ApiJob::RemoveSpaceMember { .. } => "remove_space_member",
        ApiJob::AcceptSpaceInvite { .. } => "accept_space_invite",
        ApiJob::DeclineSpaceInvite { .. } => "decline_space_invite",
        ApiJob::LeaveSpace { .. } => "leave_space",
        ApiJob::DeleteSpace { .. } => "delete_space",
        ApiJob::PollEvents { .. } => "poll_events",
        ApiJob::AddTrusted { .. } => "add_trusted",
        ApiJob::RemoveTrusted { .. } => "remove_trusted",
        ApiJob::Connect { .. } => "connect",
        ApiJob::Disconnect { .. } => "disconnect",
        ApiJob::Shutdown => "shutdown",
    }
}

/// The title the panel shows for an event of the given kind.
pub fn human_event_title(kind: &str) -> (r: String)
    ensures
        r@ == (if kind@ == "service_data"@ {
            "Message received"@
        } else if kind@ == "channel_open"@ {
            "Channel opened"@
        } else if kind@ == "channel_data"@ {
            "Channel data"@
        } else if kind@ == "channel_close"@ {
            "Channel closed"@
        } else {
            kind@
        }),
{
    if crate::text::str_eq(kind, "service_data") {
        "Message received".to_owned()
    } else if crate::text::str_eq(kind, "channel_open") {
        "Channel opened".to_owned()
    } else if crate::text::str_eq(kind, "channel_data") {
        "Channel data".to_owned()
    } else if crate::text::str_eq(kind, "channel_close") {
        "Channel closed".to_owned()
    } else {
        kind.to_owned()
    }
}

/// A trimmed text, or nothing when it is blank.
pub fn non_empty(value: &str) -> (r: Option<String>)
    ensures
        trim(value@).len() == 0 ==> r is None,
        trim(value@).len() > 0 ==> (r matches Some(s) && s@ == trim(value@)),
{
    let t = trim_str(value);
    if t.as_str().is_empty() {
        None
    } else {
        Some(t)
    }
}

/// A request the small controller window queues for the core.
#[allow(inconsistent_fields)]
pub enum ControllerJob {
    Status,
    ListPeers,
    ListSpaces,
    ListAddons,
    ListSpaceAddons,
    CreateSpace { name: String, kind: String, member: String },
    AddSpaceMember { space_id: String, member: String },
    SetSpaceAddon { space_id: String, addon_id: String, enabled: bool },
}

/// The name a controller job is reported under.
pub open spec fn controller_job_label(job: &ControllerJob) -> Seq<char> {
    match job {
        ControllerJob::Status => "status"@,
        ControllerJob::ListPeers => "list_peers"@,
        ControllerJob::ListSpaces => "list_spaces"@,
        ControllerJob::ListAddons => "list_addons"@,
        ControllerJob::ListSpaceAddons => "list_space_addons"@,
        ControllerJob::CreateSpace { .. } => "create_space"@,
        ControllerJob::AddSpaceMember { .. } => "add_space_member"@,
        ControllerJob::SetSpaceAddon { .. } => "set_space_addon_enabled"@,
    }
}

/// The name a controller job is reported under; it is also the command the
/// job sends.
pub fn controller_job_name(job: &ControllerJob) -> (r: &'static str)
    ensures
        r@ == controller_job_label(job),
{
    match job {
        ControllerJob::Status => "status",
        ControllerJob::ListPeers => "list_peers",
        ControllerJob::ListSpaces => "list_spaces",
        ControllerJob::ListAddons => "list_addons",
        ControllerJob::ListSpaceAddons => "list_space_addons",
        ControllerJob::CreateSpace { .. } => "create_space",
        ControllerJob::AddSpaceMember { .. } => "add_space_member",
        ControllerJob::SetSpaceAddon { .. } => "set_space_addon_enabled",
    }
}

/// A value in a request: null, a text, a flag or a count.
pub enum FieldValue {
    Null,
    Text(String),
    Flag(bool),
    Count(u64),
}

pub enum FieldValueView {
    Null,
    Text(Seq<char>),
    Flag(bool),
    Count(u64),
}

impl View for FieldValue {
    type V = FieldValueView;

    open spec fn view(&self) -> FieldValueView {
        match self {
            FieldValue::Null => FieldValueView::Null,
            FieldValue::Text(t) => FieldValueView::Text(t@),
            FieldValue::Flag(b) => FieldValueView::Flag(*b),
            FieldValue::Count(n) => FieldValueView::Count(*n),
        }
    }
}

/// One named field of a request.
pub struct RequestField {
    pub key: String,
    pub value: FieldValue,
}

impl View for RequestField {
    type V = (Seq<char>, FieldValueView);

    open spec fn view(&self) -> (Seq<char>, FieldValueView) {
        (self.key@, self.value@)
    }
}

pub open spec fn fields_view(s: Seq<RequestField>) -> Seq<(Seq<char>, FieldValueView)> {
    s.map_values(|f: RequestField| f@)
}

/// A trimmed text, or null when it is blank.
pub open spec fn blank_as_null(value: Seq<char>) -> FieldValueView {
    if trim(value).len() == 0 {
        FieldValueView::Null
    } else {
        FieldValueView::Text(trim(value))
    }
}

/// The fields of the request a controller job sends: its command, then the
/// job's arguments under the names the core reads.
pub open spec fn controller_fields(job: &ControllerJob) -> Seq<(Seq<char>, FieldValueView)> {
    let cmd = ("cmd"@, FieldValueView::Text(controller_job_label(job)));
    match job {
        ControllerJob::CreateSpace { name, kind, member } => seq![
            cmd,
            ("space_name"@, FieldValueView::Text(name@)),
            ("space_kind"@, FieldValueView::Text(kind@)),
            ("member_peer_id"@, blank_as_null(member@)),
        ],
        ControllerJob::AddSpaceMember { space_id, member } => seq![
            cmd,
            ("space_id"@, FieldValueView::Text(space_id@)),
            ("member_peer_id"@, FieldValueView::Text(member@)),
        ],
        ControllerJob::SetSpaceAddon { space_id, addon_id, enabled } => seq![
            cmd,
            ("space_id"@, FieldValueView::Text(space_id@)),
            ("addon_id"@, FieldValueView::Text(addon_id@)),
            ("enabled"@, FieldValueView::Flag(*enabled)),
        ],
        _ => seq![cmd],
    }
}

/// A trimmed text, or null when it is blank.
pub fn empty_to_null(value: &str) -> (r: FieldValue)
    ensures
        r@ == blank_as_null(value@),
{
    match non_empty(value) {
        Some(t) => FieldValue::Text(t),
        None => FieldValue::Null,
    }
}

fn text_field(key: &str, value: &str) -> (r: RequestField)
    ensures
        r@ == (key@, FieldValueView::Text(value@)),
{
    RequestField { key: key.to_owned(), value: FieldValue::Text(value.to_owned()) }
}

/// The request a controller job sends, field by field.
pub fn controller_request(job: &ControllerJob) -> (r: Vec<RequestField>)
    ensures
        fields_view(r@) == controller_fields(job),
{
    let cmd = text_field("cmd", controller_job_name(job));
    let r = match job {
        ControllerJob::CreateSpace { name, kind, member } => vec![
            cmd,
            text_field("space_name", name.as_str()),
            text_field("space_kind", kind.as_str()),
            RequestField { key: "member_peer_id".to_owned(), value: empty_to_null(member.as_str()) },
        ],
        ControllerJob::AddSpaceMember { space_id, member } => vec![
            cmd,
            text_field("space_id", space_id.as_str()),
            text_field("member_peer_id", member.as_str()),
        ],
        ControllerJob::SetSpaceAddon { space_id, addon_id, enabled } => vec![
            cmd,
            text_field("space_id", space_id.as_str()),
            text_field("addon_id", addon_id.as_str()),
            RequestField { key: "enabled".to_owned(), value: FieldValue::Flag(*enabled) },
        ],
        _ => vec![cmd],
    };
    proof {
        assert(fields_view(r@) =~= controller_fields(job));
    }
    r
}

/// How many events one poll of the control panel asks for.
pub const PANEL_POLL_MAX_EVENTS: u64 = 100;

/// A text field when the value is there, and no field when it is not.
pub open spec fn optional_text(key: Seq<char>, value: Option<String>) -> Seq<(Seq<char>, FieldValueView)> {
    match value {
        Some(v) => seq![(key, FieldValueView::Text(v@))],
        None => Seq::empty(),
    }
}

/// The fields of the request a control-panel job sends: the core's command,
/// then the job's arguments.
pub open spec fn job_fields(job: &ApiJob) -> Seq<(Seq<char>, FieldValueView)> {
    let cmd = |c: Seq<char>| (("cmd"@, FieldValueView::Text(c)));
    let text = |k: Seq<char>, v: Seq<char>| ((k, FieldValueView::Text(v)));
    match job {
        ApiJob::Status => seq![cmd("status"@)],
        ApiJob::Paths => seq![cmd("paths"@)],
        ApiJob::Peers => seq![cmd("list_peers"@)],
        ApiJob::Trusted => seq![cmd("list_trusted_devices"@)],
        ApiJob::Connections => seq![cmd("list_connections"@)],
        ApiJob::Addons => seq![cmd("list_addons"@)],
        ApiJob::Spaces => seq![cmd("list_spaces"@)],
        ApiJob::CreateSpace { name, kind } => seq![cmd("create_space"@), text("name"@, name@), text("kind"@, kind@)],
        ApiJob::ActivateSpace { space_id } => seq![cmd("activate_space"@), text("space_id"@, space_id@)],
        ApiJob::DeactivateSpace { space_id } => seq![cmd("deactivate_space"@), text("space_id"@, space_id@)],
        ApiJob::AddSpaceMember { space_id, peer_id } => seq![
            cmd("add_space_member"@),
            text("space_id"@, space_id@),
            text("peer_id"@, peer_id@),
        ],
        ApiJob::RemoveSpaceMember { space_id, peer_id } => seq![
            cmd("remove_space_member"@),
            text("space_id"@, space_id@),
            text("peer_id"@, peer_id@),
        ],
        ApiJob::AcceptSpaceInvite { space_id } => seq![cmd("accept_space_invite"@), text("space_id"@, space_id@)],
        ApiJob::DeclineSpaceInvite { space_id } => seq![cmd("decline_space_invite"@), text("space_id"@, space_id@)],
        ApiJob::LeaveSpace { space_id } => seq![cmd("leave_space"@), text("space_id"@, space_id@)],
        ApiJob::DeleteSpace { space_id } => seq![cmd("delete_space"@), text("space_id"@, space_id@)],
        ApiJob::Shutdown => seq![cmd("shutdown"@)],
        ApiJob::PollEvents { service } => seq![
            cmd("poll_events"@),
            ("max_events"@, FieldValueView::Count(PANEL_POLL_MAX_EVENTS)),
        ] + optional_text("service"@, *service),
        ApiJob::AddTrusted { name, mac } => seq![cmd("add_trusted_device"@), text("name"@, name@), text("mac"@, mac@)],
        ApiJob::RemoveTrusted { mac } => seq![cmd("remove_trusted_device"@), text("mac"@, mac@)],
        ApiJob::Connect { mac, peer_id } => seq![cmd("connect_device"@)] + optional_text("mac"@, *mac) + optional_text(
            "peer_id"@,
            *peer_id,
        ),
        ApiJob::Disconnect { mac, peer_id } => seq![cmd("disconnect_device"@)] + optional_text("mac"@, *mac)
            + optional_text("peer_id"@, *peer_id),
    }
}

/// Appends a text field when the value is there.
fn push_optional(fields: &mut Vec<RequestField>, key: &str, value: &Option<String>)
    ensures
        fields_view(final(fields)@) == fields_view(old(fields)@) + optional_text(key@, *value),
{
    match value {
        Some(v) => {
            let ghost before = fields_view(fields@);
            fields.push(text_field(key, v.as_str()));
            proof {
                assert(fields_view(fields@) =~= before + optional_text(key@, *value));
            }
        },
        None => {
            assert(fields_view(fields@) =~= fields_view(fields@) + optional_text(key@, *value));
        },
    }
}

/// The request a control-panel job sends, field by field.
pub fn job_request(job: &ApiJob) -> (r: Vec<RequestField>)
    ensures
        fields_view(r@) == job_fields(job),
{
    let mut r = match job {
        ApiJob::Status => vec![text_field("cmd", "status")],
        ApiJob::Paths => vec![text_field("cmd", "paths")],
        ApiJob::Peers => vec![text_field("cmd", "list_peers")],
        ApiJob::Trusted => vec![text_field("cmd", "list_trusted_devices")],
        ApiJob::Connections => vec![text_field("cmd", "list_connections")],
        ApiJob::Addons => vec![text_field("cmd", "list_addons")],
        ApiJob::Spaces => vec![text_field("cmd", "list_spaces")],
        ApiJob::CreateSpace { name, kind } => vec![
            text_field("cmd", "create_space"),
            text_field("name", name.as_str()),
            text_field("kind", kind.as_str()),
        ],
        ApiJob::ActivateSpace { space_id } => vec![text_field("cmd", "activate_space"), text_field("space_id", space_id.as_str())],
        ApiJob::DeactivateSpace { space_id } => vec![text_field("cmd", "deactivate_space"), text_field("space_id", space_id.as_str())],
        ApiJob::AddSpaceMember { space_id, peer_id } => vec![
            text_field("cmd", "add_space_member"),
            text_field("space_id", space_id.as_str()),
            text_field("peer_id", peer_id.as_str()),
        ],
        ApiJob::RemoveSpaceMember { space_id, peer_id } => vec![
            text_field("cmd", "remove_space_member"),
            text_field("space_id", space_id.as_str()),
            text_field("peer_id", peer_id.as_str()),
        ],
        ApiJob::AcceptSpaceInvite { space_id } => vec![text_field("cmd", "accept_space_invite"), text_field("space_id", space_id.as_str())],
        ApiJob::DeclineSpaceInvite { space_id } => vec![text_field("cmd", "decline_space_invite"), text_field("space_id", space_id.as_str())],
        ApiJob::LeaveSpace { space_id } => vec![text_field("cmd", "leave_space"), text_field("space_id", space_id.as_str())],
        ApiJob::DeleteSpace { space_id } => vec![text_field("cmd", "delete_space"), text_field("space_id", space_id.as_str())],
        ApiJob::Shutdown => vec![text_field("cmd", "shutdown")],
        ApiJob::PollEvents { .. } => vec![
            text_field("cmd", "poll_events"),
            RequestField { key: "max_events".to_owned(), value: FieldValue::Count(PANEL_POLL_MAX_EVENTS) },
        ],
        ApiJob::AddTrusted { name, mac } => vec![
            text_field("cmd", "add_trusted_device"),
            text_field("name", name.as_str()),
            text_field("mac", mac.as_str()),
        ],
        ApiJob::RemoveTrusted { mac } => vec![text_field("cmd", "remove_trusted_device"), text_field("mac", mac.as_str())],
        ApiJob::Connect { .. } => vec![text_field("cmd", "connect_device")],
        ApiJob::Disconnect { .. } => vec![text_field("cmd", "disconnect_device")],
    };
    match job {
        ApiJob::PollEvents { service } => {
            push_optional(&mut r, "service", service);
        },
        ApiJob::Connect { mac, peer_id } => {
            push_optional(&mut r, "mac", mac);
            push_optional(&mut r, "peer_id", peer_id);
        },
        ApiJob::Disconnect { mac, peer_id } => {
            push_optional(&mut r, "mac", mac);
            push_optional(&mut r, "peer_id", peer_id);
        },
        _ => {
            assert(fields_view(r@) =~= job_fields(job));
        },
    }
    proof {
        assert(fields_view(r@) =~= job_fields(job));
    }
    r
}

/// A request the space control window queues for the core.
#[allow(inconsistent_fields)]
pub enum SpaceControlJob {
    Status,
    Peers,
    Trusted,
    Connections,
    Addons,
    Spaces,
    SpaceAddons,
    PollEvents,
    AddTrusted { name: String, mac: String },
    RemoveTrusted { mac: String },
    Connect { mac: Option<String>, peer_id: Option<String> },
    Disconnect { mac: Option<String>, peer_id: Option<String> },
    CreateSpace { name: String, kind: String, member: Option<String> },
    DeleteSpace { space_id: String },
    RenameSpace { space_id: String, name: String },
    AddSpaceMember { space_id: String, member: String },
    RemoveSpaceMember { space_id: String, member: String },
    SetSpaceAddon { space_id: String, addon_id: String, enabled: bool },
    ReloadAddons,
    Shutdown,
}

/// The name a space control job is reported under.
pub open spec fn space_control_label(job: &SpaceControlJob) -> Seq<char> {
    match job {
        SpaceControlJob::Status => "status"@,
        SpaceControlJob::Peers => "peers"@,
        SpaceControlJob::Trusted => "trusted"@,
        SpaceControlJob::Connections => "connections"@,
        SpaceControlJob::Addons => "addons"@,
        SpaceControlJob::Spaces => "spaces"@,
        SpaceControlJob::SpaceAddons => "space_addons"@,
        SpaceControlJob::PollEvents => "poll_events"@,
        SpaceControlJob::AddTrusted { .. } => "add_trusted"@,
        SpaceControlJob::RemoveTrusted { .. } => "remove_trusted"@,
        SpaceControlJob::Connect { .. } => "connect"@,
        SpaceControlJob::Disconnect { .. } => "disconnect"@,
        SpaceControlJob::CreateSpace { .. } => "create_space"@,
        SpaceControlJob::DeleteSpace { .. } => "delete_space"@,
        SpaceControlJob::RenameSpace { .. } => "rename_space"@,
        SpaceControlJob::AddSpaceMember { .. } => "add_space_member"@,
        SpaceControlJob::RemoveSpaceMember { .. } => "remove_space_member"@,
        SpaceControlJob::SetSpaceAddon { .. } => "set_space_addon_enabled"@,
        SpaceControlJob::ReloadAddons => "reload_addons"@,
        SpaceControlJob::Shutdown => "shutdown"@,
    }
}

/// The name a space control job is reported under.
pub fn space_control_job_name(job: &SpaceControlJob) -> (r: &'static str)
    ensures
        r@ == space_control_label(job),
{
    match job {
        SpaceControlJob::Status => "status",
        SpaceControlJob::Peers => "peers",
        SpaceControlJob::Trusted => "trusted",
        SpaceControlJob::Connections => "connections",
        SpaceControlJob::Addons => "addons",
        SpaceControlJob::Spaces => "spaces",
        SpaceControlJob::SpaceAddons => "space_addons",
        SpaceControlJob::PollEvents => "poll_events",
        SpaceControlJob::AddTrusted { .. } => "add_trusted",
        SpaceControlJob::RemoveTrusted { .. } => "remove_trusted",
        SpaceControlJob::Connect { .. } => "connect",
        SpaceControlJob::Disconnect { .. } => "disconnect",
        SpaceControlJob::CreateSpace { .. } => "create_space",
        SpaceControlJob::DeleteSpace { .. } => "delete_space",
        SpaceControlJob::RenameSpace { .. } => "rename_space",
        SpaceControlJob::AddSpaceMember { .. } => "add_space_member",
        SpaceControlJob::RemoveSpaceMember { .. } => "remove_space_member",
        SpaceControlJob::SetSpaceAddon { .. } => "set_space_addon_enabled",
        SpaceControlJob::ReloadAddons => "reload_addons",
        SpaceControlJob::Shutdown => "shutdown",
    }
}

/// How many events one poll of the space control window asks for.
pub const SPACE_CONTROL_POLL_MAX_EVENTS: u64 = 200;

/// A field that is the text when there is one and null when not.
pub open spec fn nullable_text(value: Option<String>) -> FieldValueView {
    match value {
        Some(v) => FieldValueView::Text(v@),
        None => FieldValueView::Null,
    }
}

/// The fields of the request a space control job sends.
pub open spec fn space_control_fields(job: &SpaceControlJob) -> Seq<(Seq<char>, FieldValueView)> {
    let cmd = |c: Seq<char>| (("cmd"@, FieldValueView::Text(c)));
    let text = |k: Seq<char>, v: Seq<char>| ((k, FieldValueView::Text(v)));
    match job {
        SpaceControlJob::Status => seq![cmd("status"@)],
        SpaceControlJob::Peers => seq![cmd("list_peers"@)],
        SpaceControlJob::Trusted => seq![cmd("list_trusted_devices"@)],
        SpaceControlJob::Connections => seq![cmd("list_connections"@)],
        SpaceControlJob::Addons => seq![cmd("list_addons"@)],
        SpaceControlJob::Spaces => seq![cmd("list_spaces"@)],
        SpaceControlJob::SpaceAddons => seq![cmd("list_space_addons"@)],
        SpaceControlJob::PollEvents => seq![
            cmd("poll_events"@),
            ("max_events"@, FieldValueView::Count(SPACE_CONTROL_POLL_MAX_EVENTS)),
        ],
        SpaceControlJob::AddTrusted { name, mac } => seq![
            cmd("add_trusted_device"@),
            text("name"@, name@),
            text("mac"@, mac@),
        ],
        SpaceControlJob::RemoveTrusted { mac } => seq![cmd("remove_trusted_device"@), text("mac"@, mac@)],
        SpaceControlJob::Connect { mac, peer_id } => seq![
            cmd("connect_device"@),
            ("mac"@, nullable_text(*mac)),
            ("peer_id"@, nullable_text(*peer_id)),
        ],
        SpaceControlJob::Disconnect { mac, peer_id } => seq![
            cmd("disconnect_device"@),
            ("mac"@, nullable_text(*mac)),
            ("peer_id"@, nullable_text(*peer_id)),
        ],
        SpaceControlJob::CreateSpace { name, kind, member } => seq![
            cmd("create_space"@),
            text("space_name"@, name@),
            text("space_kind"@, kind@),
            ("member_peer_id"@, nullable_text(*member)),
        ],
        SpaceControlJob::DeleteSpace { space_id } => seq![cmd("delete_space"@), text("space_id"@, space_id@)],
        SpaceControlJob::RenameSpace { space_id, name } => seq![
            cmd("rename_space"@),
            text("space_id"@, space_id@),
            text("space_name"@, name@),
        ],
        SpaceControlJob::AddSpaceMember { space_id, member } => seq![
            cmd("add_space_member"@),
            text("space_id"@, space_id@),
            text("member_peer_id"@, member@),
        ],
        SpaceControlJob::RemoveSpaceMember { space_id, member } => seq![
            cmd("remove_space_member"@),
            text("space_id"@, space_id@),
            text("member_peer_id"@, member@),
        ],
        SpaceControlJob::SetSpaceAddon { space_id, addon_id, enabled } => seq![
            cmd("set_space_addon_enabled"@),
            text("space_id"@, space_id@),
            text("addon_id"@, addon_id@),
            ("enabled"@, FieldValueView::Flag(*enabled)),
        ],
        SpaceControlJob::ReloadAddons => seq![cmd("reload_addons"@)],
        SpaceControlJob::Shutdown => seq![cmd("shutdown"@)],
    }
}

fn nullable_field(key: &str, value: &Option<String>) -> (r: RequestField)
    ensures
        r@ == (key@, nullable_text(*value)),
{
    let v = match value {
        Some(t) => FieldValue::Text(t.clone()),
        None => FieldValue::Null,
    };
    RequestField { key: key.to_owned(), value: v }
}

/// The request a space control job sends, field by field.
pub fn space_control_request(job: &SpaceControlJob) -> (r: Vec<RequestField>)
    ensures
        fields_view(r@) == space_control_fields(job),
{
    let r = match job {
        SpaceControlJob::Status => vec![text_field("cmd", "status")],
        SpaceControlJob::Peers => vec![text_field("cmd", "list_peers")],
        SpaceControlJob::Trusted => vec![text_field("cmd", "list_trusted_devices")],
        SpaceControlJob::Connections => vec![text_field("cmd", "list_connections")],
        SpaceControlJob::Addons => vec![text_field("cmd", "list_addons")],
        SpaceControlJob::Spaces => vec![text_field("cmd", "list_spaces")],
        SpaceControlJob::SpaceAddons => vec![text_field("cmd", "list_space_addons")],
        SpaceControlJob::PollEvents => vec![
            text_field("cmd", "poll_events"),
            RequestField { key: "max_events".to_owned(), value: FieldValue::Count(SPACE_CONTROL_POLL_MAX_EVENTS) },
        ],
        SpaceControlJob::AddTrusted { name, mac } => vec![
            text_field("cmd", "add_trusted_device"),
            text_field("name", name.as_str()),
            text_field("mac", mac.as_str()),
        ],
        SpaceControlJob::RemoveTrusted { mac } => vec![text_field("cmd", "remove_trusted_device"), text_field("mac", mac.as_str())],
        SpaceControlJob::Connect { mac, peer_id } => vec![
            text_field("cmd", "connect_device"),
            nullable_field("mac", mac),
            nullable_field("peer_id", peer_id),
        ],
        SpaceControlJob::Disconnect { mac, peer_id } => vec![
            text_field("cmd", "disconnect_device"),
            nullable_field("mac", mac),
            nullable_field("peer_id", peer_id),
        ],
        SpaceControlJob::CreateSpace { name, kind, member } => vec![
            text_field("cmd", "create_space"),
            text_field("space_name", name.as_str()),
            text_field("space_kind", kind.as_str()),
            nullable_field("member_peer_id", member),
        ],
        SpaceControlJob::DeleteSpace { space_id } => vec![text_field("cmd", "delete_space"), text_field("space_id", space_id.as_str())],
        SpaceControlJob::RenameSpace { space_id, name } => vec![
            text_field("cmd", "rename_space"),
            text_field("space_id", space_id.as_str()),
            text_field("space_name", name.as_str()),
        ],
        SpaceControlJob::AddSpaceMember { space_id, member } => vec![
            text_field("cmd", "add_space_member"),
            text_field("space_id", space_id.as_str()),
            text_field("member_peer_id", member.as_str()),
        ],
        SpaceControlJob::RemoveSpaceMember { space_id, member } => vec![
            text_field("cmd", "remove_space_member"),
            text_field("space_id", space_id.as_str()),
            text_field("member_peer_id", member.as_str()),
        ],
        SpaceControlJob::SetSpaceAddon { space_id, addon_id, enabled } => vec![
            text_field("cmd", "set_space_addon_enabled"),
            text_field("space_id", space_id.as_str()),
            text_field("addon_id", addon_id.as_str()),
            RequestField { key: "enabled".to_owned(), value: FieldValue::Flag(*enabled) },
        ],
        SpaceControlJob::ReloadAddons => vec![text_field("cmd", "reload_addons")],
        SpaceControlJob::Shutdown => vec![text_field("cmd", "shutdown")],
    };
    proof {
        assert(fields_view(r@) =~= space_control_fields(job));
    }
    r
}

/// A trimmed label shortened to `max_chars` characters, ending in `...`
/// when cut.
pub open spec fn ellipsized(input: Seq<char>, max_chars: nat) -> Seq<char> {
    let t = trim(input);
    if t.len() <= max_chars {
        t
    } else if max_chars <= 3 {
        "..."@
    } else {
        t.take(max_chars - 3) + "..."@
    }
}

pub fn ellipsize(input: &str, max_chars: usize) -> (r: String)
    ensures
        r@ == ellipsized(input@, max_chars as nat),
{
    let t = trim_str(input);
    let ts = t.as_str();
    let n = ts.unicode_len();
    if n <= max_chars {
        return t;
    }
    if max_chars <= 3 {
        return "...".to_owned();
    }
    let keep = max_chars - 3;
    let head = ts.substring_char(0, keep).to_owned();
    proof {
        assert(ts@.subrange(0, keep as int) == ts@.take(keep as int));
    }
    head.concat("...")
}

/// `char::to_ascii_lowercase`: ASCII capitals become small letters.
pub open spec fn ascii_lower_char(c: char) -> char {
    if 'A' <= c && c <= 'Z' {
        ((c as u32) + 32) as char
    } else {
        c
    }
}

pub open spec fn ascii_lower(s: Seq<char>) -> Seq<char> {
    s.map_values(|c: char| ascii_lower_char(c))
}

fn lower_char(c: char) -> (r: char)
    ensures
        r == ascii_lower_char(c),
{
    if 'A' <= c && c <= 'Z' {
        let v = (c as u32) + 32;
        proof {
            assert(0x61 <= v <= 0x7a);
        }
        let r = char_from_ascii(v as u8);
        r
    } else {
        c
    }
}

/// The character with an ASCII code.
fn char_from_ascii(b: u8) -> (r: char)
    requires
        b < 128,
    ensures
        r == (b as u32) as char,
{
    b as char
}

/// `str::to_ascii_lowercase`.
pub fn to_ascii_lowercase(s: &str) -> (r: String)
    ensures
        r@ == ascii_lower(s@),
{
    let n = s.unicode_len();
    let mut out = String::new();
    let mut i: usize = 0;
    while i < n
        invariant
            n == s@.len(),
            i <= n,
            out@ == ascii_lower(s@.take(i as int)),
        decreases n - i,
    {
        let c = s.get_char(i);
        string_push(&mut out, lower_char(c));
        proof {
            assert(ascii_lower(s@.take(i + 1)) =~= ascii_lower(s@.take(i as int)).push(ascii_lower_char(c)));
        }
        i = i + 1;
    }
    proof {
        assert(s@.take(n as int) == s@);
    }
    out
}

/// Whether `needle` occurs in `hay`.
pub open spec fn has_text(hay: Seq<char>, needle: Seq<char>) -> bool {
    exists|i: int| 0 <= i <= hay.len() - needle.len() && #[trigger] hay.subrange(i, i + needle.len()) == needle
}

/// `str::contains` for a text.
pub fn contains_text(hay: &str, needle: &str) -> (r: bool)
    ensures
        r == has_text(hay@, needle@),
{
    let n = hay.unicode_len();
    let m = needle.unicode_len();
    if m > n {
        return false;
    }
    let limit = n - m;
    let mut i: usize = 0;
    loop
        invariant
            n == hay@.len(),
            m == needle@.len(),
            m <= n,
            limit == n - m,
            i <= limit,
            forall|k: int| 0 <= k < i ==> #[trigger] hay@.subrange(k, k + m) != needle@,
        decreases limit - i,
    {
        let part = hay.substring_char(i, i + m);
        if crate::text::str_eq(part, needle) {
            return true;
        }
        if i == limit {
            return false;
        }
        i = i + 1;
    }
}

/// Whether a lower-case log line records something the log viewer shows
/// by default: actions, state changes, failures, add-on launches and
/// probe traffic.
pub open spec fn action_line(lower: Seq<char>) -> bool {
    has_text(lower, "action apijob"@)
        || has_text(lower, "set_space_addon_enabled"@)
        || has_text(lower, "set_addon_enabled"@)
        || has_text(lower, "set_space_active"@)
        || has_text(lower, "activate_space"@)
        || has_text(lower, "deactivate_space"@)
        || has_text(lower, "ok=false"@)
        || has_text(lower, "error="@)
        || has_text(lower, "failed"@)
        || has_text(lower, "could not"@)
        || has_text(lower, "panic"@)
        || has_text(lower, "addon-manager"@)
        || has_text(lower, "addon-launch"@)
        || has_text(lower, "starting add-on"@)
        || has_text(lower, "started add-on"@)
        || has_text(lower, "exited"@)
        || has_text(lower, "suppressed"@)
        || has_text(lower, "space-probe"@)
        || has_text(lower, "probe_ping"@)
        || has_text(lower, "probe_pong"@)
        || has_text(lower, "send_space_message"@)
        || has_text(lower, "space_service_data"@)
}

pub fn is_action_line(lower: &str) -> (r: bool)
    ensures
        r == action_line(lower@),
{
    contains_text(lower, "action apijob")
        || contains_text(lower, "set_space_addon_enabled")
        || contains_text(lower, "set_addon_enabled")
        || contains_text(lower, "set_space_active")
        || contains_text(lower, "activate_space")
        || contains_text(lower, "deactivate_space")
        || contains_text(lower, "ok=false")
        || contains_text(lower, "error=")
        || contains_text(lower, "failed")
        || contains_text(lower, "could not")
        || contains_text(lower, "panic")
        || contains_text(lower, "addon-manager")
        || contains_text(lower, "addon-launch")
        || contains_text(lower, "starting add-on")
        || contains_text(lower, "started add-on")
        || contains_text(lower, "exited")
        || contains_text(lower, "suppressed")
        || contains_text(lower, "space-probe")
        || contains_text(lower, "probe_ping")
        || contains_text(lower, "probe_pong")
        || contains_text(lower, "send_space_message")
        || contains_text(lower, "space_service_data")
}

/// The class a log line is shown under.
pub open spec fn line_class(line: Seq<char>) -> Seq<char> {
    let lower = ascii_lower(line);
    if has_text(lower, "ok=false"@) || has_text(lower, "error="@) || has_text(lower, "failed"@) || has_text(lower, "could not"@)
        || has_text(lower, "panic"@) {
        "ERROR"@
    } else if has_text(lower, "action apijob"@) || has_text(lower, "set_space_addon_enabled"@) {
        "ACTION"@
    } else if has_text(lower, "set_addon_enabled"@) || has_text(lower, "set_space_active"@) {
        "STATE"@
    } else if has_text(lower, "addon-launch"@) || has_text(lower, "starting add-on"@) || has_text(lower, "started add-on"@) {
        "LAUNCH"@
    } else if has_text(lower, "addon-manager"@) {
        "PLAN"@
    } else if has_text(lower, "space-probe"@) || has_text(lower, "probe_ping"@) || has_text(lower, "probe_pong"@) {
        "PROBE"@
    } else {
        "DEBUG"@
    }
}

pub fn classify_line(line: &str) -> (r: String)
    ensures
        r@ == line_class(line@),
{
    let lower_s = to_ascii_lowercase(line);
    let lower = lower_s.as_str();
    if contains_text(lower, "ok=false") || contains_text(lower, "error=") || contains_text(lower, "failed")
        || contains_text(lower, "could not") || contains_text(lower, "panic") {
        "ERROR".to_owned()
    } else if contains_text(lower, "action apijob") || contains_text(lower, "set_space_addon_enabled") {
        "ACTION".to_owned()
    } else if contains_text(lower, "set_addon_enabled") || contains_text(lower, "set_space_active") {
        "STATE".to_owned()
    } else if contains_text(lower, "addon-launch") || contains_text(lower, "starting add-on") || contains_text(
        lower,
        "started add-on",
    ) {
        "LAUNCH".to_owned()
    } else if contains_text(lower, "addon-manager") {
        "PLAN".to_owned()
    } else if contains_text(lower, "space-probe") || contains_text(lower, "probe_ping") || contains_text(lower, "probe_pong") {
        "PROBE".to_owned()
    } else {
        "DEBUG".to_owned()
    }
}

/// Whether the log viewer shows a line: it must contain the filter (both
/// compared in lower case), and, unless raw lines are wanted, be an action
/// line.
pub fn line_matches(filter: &str, raw: bool, line: &str) -> (r: bool)
    ensures
        r == ({
            let lower = ascii_lower(line@);
            let needle = ascii_lower(trim(filter@));
            (needle.len() == 0 || has_text(lower, needle)) && (raw || action_line(lower))
        }),
{
    let lower_s = to_ascii_lowercase(line);
    let trimmed = trim_str(filter);
    let needle_s = to_ascii_lowercase(trimmed.as_str());
    let lower = lower_s.as_str();
    let needle = needle_s.as_str();
    if !needle.is_empty() && !contains_text(lower, needle) {
        return false;
    }
    if raw {
        return true;
    }
    is_action_line(lower)
}

/// Where a log file comes from.
#[derive(Clone, Copy, Debug, PartialEq, Eq, Structural)]
pub enum SourceKind {
    Core,
    Ui,
    DevLaunch,
    SpaceProbe,
}

impl SourceKind {
    /// The short label of a source.
    pub fn label(&self) -> (r: &'static str)
        ensures
            r@ == match self {
                SourceKind::Core => "CORE"@,
                SourceKind::Ui => "UI"@,
                SourceKind::DevLaunch => "DEV"@,
                SourceKind::SpaceProbe => "PROBE"@,
            },
    {
        match self {
            SourceKind::Core => "CORE",
            SourceKind::Ui => "UI",
            SourceKind::DevLaunch => "DEV",
            SourceKind::SpaceProbe => "PROBE",
        }
    }
}

/// The value of a base64 digit of the standard alphabet.
pub open spec fn b64_digit(c: u8) -> Option<u8> {
    if 65 <= c <= 90 {
        Some((c - 65) as u8)
    } else if 97 <= c <= 122 {
        Some((c - 97 + 26) as u8)
    } else if 48 <= c <= 57 {
        Some((c - 48 + 52) as u8)
    } else if c == 43 {
        Some(62u8)
    } else if c == 47 {
        Some(63u8)
    } else {
        None
    }
}

/// The third or fourth character of a group: padding counts as absent, and
/// so does a character outside the alphabet.
pub open spec fn b64_tail_digit(c: u8) -> Option<u8> {
    if c == 61 {
        None
    } else {
        b64_digit(c)
    }
}

/// The bytes a group of four characters stands for.
pub open spec fn group_bytes(c0: u8, c1: u8, x2: Option<u8>, x3: Option<u8>) -> Seq<u8> {
    let first = seq![(c0 << 2u8) | (c1 >> 4u8)];
    match x2 {
        None => first,
        Some(c2) => {
            let second = first.push(((c1 & 15u8) << 4u8) | (c2 >> 2u8));
            match x3 {
                None => second,
                Some(c3) => second.push(((c2 & 3u8) << 6u8) | c3),
            }
        },
    }
}

/// What the groups of four from position `i` on decode to: nothing when a
/// group's first two characters are not both digits; characters after the
/// last whole group are ignored.
pub open spec fn simple_decoded_from(b: Seq<u8>, i: nat) -> Option<Seq<u8>>
    decreases b.len() - i,
{
    if i + 3 < b.len() {
        if b64_digit(b[i as int]) is Some && b64_digit(b[i + 1int]) is Some {
            match simple_decoded_from(b, i + 4) {
                Some(rest) => Some(
                    group_bytes(
                        b64_digit(b[i as int])->0,
                        b64_digit(b[i + 1int])->0,
                        b64_tail_digit(b[i + 2int]),
                        b64_tail_digit(b[i + 3int]),
                    ) + rest,
                ),
                None => None,
            }
        } else {
            None
        }
    } else {
        Some(Seq::empty())
    }
}

fn b64_digit_of(c: u8) -> (r: Option<u8>)
    ensures
        r == b64_digit(c),
{
    if 65 <= c && c <= 90 {
        Some(c - 65)
    } else if 97 <= c && c <= 122 {
        Some(c - 97 + 26)
    } else if 48 <= c && c <= 57 {
        Some(c - 48 + 52)
    } else if c == 43 {
        Some(62)
    } else if c == 47 {
        Some(63)
    } else {
        None
    }
}

/// Event data could not be read as base64.
pub enum PayloadError {
    BadBase64,
}

/// A small base64 reader for event payloads: whole groups of four only,
/// padding taken as the end of a group.
pub fn base64_decode_simple(s: &str) -> (r: Result<Vec<u8>, PayloadError>)
    ensures
        match simple_decoded_from(s.spec_bytes(), 0) {
            Some(d) => r matches Ok(v) && v@ == d,
            None => r is Err,
        },
{
    let bytes = s.as_bytes_vec();
    let ghost b = bytes@;
    let mut out: Vec<u8> = Vec::new();
    let mut i: usize = 0;
    proof {
        assert forall|d: Option<Seq<u8>>| prefixed(Seq::empty(), d) == d by {
            if d is Some {
                assert(Seq::<u8>::empty() + d->0 =~= d->0);
            }
        }
    }
    while i < bytes.len() && bytes.len() - i > 3
        invariant
            b == bytes@,
            b == s.spec_bytes(),
            i <= b.len(),
            simple_decoded_from(b, 0) == prefixed(out@, simple_decoded_from(b, i as nat)),
        decreases b.len() - i,
    {
        let c0 = match b64_digit_of(bytes[i]) {
            Some(c) => c,
            None => {
                return Err(PayloadError::BadBase64);
            },
        };
        let c1 = match b64_digit_of(bytes[i + 1]) {
            Some(c) => c,
            None => {
                return Err(PayloadError::BadBase64);
            },
        };
        let c2 = if bytes[i + 2] == 61 {
            None
        } else {
            b64_digit_of(bytes[i + 2])
        };
        let c3 = if bytes[i + 3] == 61 {
            None
        } else {
            b64_digit_of(bytes[i + 3])
        };
        let ghost before = out@;
        out.push((c0 << 2u8) | (c1 >> 4u8));
        if let Some(c2) = c2 {
            out.push(((c1 & 15u8) << 4u8) | (c2 >> 2u8));
            if let Some(c3) = c3 {
                out.push(((c2 & 3u8) << 6u8) | c3);
            }
        }
        proof {
            let g = group_bytes(c0, c1, c2, c3);
            assert(out@ =~= before + g);
            match simple_decoded_from(b, (i + 4) as nat) {
                Some(rest) => {
                    assert(before + (g + rest) =~= (before + g) + rest);
                },
                None => {},
            }
        }
        i = i + 4;
    }
    proof {
        assert(simple_decoded_from(b, i as nat) == Some(Seq::<u8>::empty()));
        assert(out@ + Seq::<u8>::empty() =~= out@);
    }
    Ok(out)
}

/// `prefix` followed by what `rest` decoded to, if it decoded.
pub open spec fn prefixed(prefix: Seq<u8>, rest: Option<Seq<u8>>) -> Option<Seq<u8>> {
    match rest {
        Some(r) => Some(prefix + r),
        None => None,
    }
}

/// A connection as the control panel lists it.
pub struct ConnectionEntry {
    pub device_id: String,
    pub device_name: String,
}

/// A discovered device as the control panel lists it.
pub struct NearbyEntry {
    pub device_id: String,
    pub device_name: String,
    pub trusted: bool,
}

/// A trusted device as the control panel lists it.
pub struct TrustedEntry {
    pub name: String,
    pub device_id: Option<String>,
}

/// A device that can be added to a space, with where it was found.
pub struct MemberCandidate {
    pub device_id: String,
    pub device_name: String,
    pub source: String,
}

pub struct CandidateView {
    pub device_id: Seq<char>,
    pub device_name: Seq<char>,
    pub source: Seq<char>,
}

impl View for MemberCandidate {
    type V = CandidateView;

    open spec fn view(&self) -> CandidateView {
        CandidateView { device_id: self.device_id@, device_name: self.device_name@, source: self.source@ }
    }
}

pub open spec fn candidates_view(s: Seq<MemberCandidate>) -> Seq<CandidateView> {
    s.map_values(|c: MemberCandidate| c@)
}

/// The list with one more device: added unless its id is blank or listed.
pub open spec fn with_candidate(c: Seq<CandidateView>, id: Seq<char>, name: Seq<char>, source: Seq<char>) -> Seq<
    CandidateView,
> {
    if trim(id).len() > 0 && !(exists|j: int| 0 <= j < c.len() && #[trigger] c[j].device_id == id) {
        c.push(CandidateView { device_id: id, device_name: name, source })
    } else {
        c
    }
}

pub open spec fn after_connections(c: Seq<CandidateView>, rows: Seq<ConnectionEntry>) -> Seq<CandidateView>
    decreases rows.len(),
{
    if rows.len() == 0 {
        c
    } else {
        let r = rows.last();
        with_candidate(after_connections(c, rows.drop_last()), r.device_id@, r.device_name@, "Connected"@)
    }
}

pub open spec fn nearby_source(trusted: bool) -> Seq<char> {
    if trusted {
        "Nearby trusted"@
    } else {
        "Nearby"@
    }
}

pub open spec fn after_nearby(c: Seq<CandidateView>, rows: Seq<NearbyEntry>) -> Seq<CandidateView>
    decreases rows.len(),
{
    if rows.len() == 0 {
        c
    } else {
        let r = rows.last();
        with_candidate(after_nearby(c, rows.drop_last()), r.device_id@, r.device_name@, nearby_source(r.trusted))
    }
}

pub open spec fn after_trusted(c: Seq<CandidateView>, rows: Seq<TrustedEntry>) -> Seq<CandidateView>
    decreases rows.len(),
{
    if rows.len() == 0 {
        c
    } else {
        let r = rows.last();
        let before = after_trusted(c, rows.drop_last());
        match r.device_id {
            Some(id) => with_candidate(before, id@, r.name@, "Trusted"@),
            None => before,
        }
    }
}

fn add_candidate(c: &mut Vec<MemberCandidate>, id: &str, name: &str, source: &str)
    ensures
        candidates_view(final(c)@) == with_candidate(candidates_view(old(c)@), id@, name@, source@),
{
    let ghost v = candidates_view(c@);
    let t = trim_str(id);
    if t.as_str().unicode_len() == 0 {
        return;
    }
    let mut i: usize = 0;
    while i < c.len()
        invariant
            v == candidates_view(c@),
            i <= c@.len(),
            forall|j: int| 0 <= j < i ==> v[j].device_id != id@,
        decreases c@.len() - i,
    {
        if crate::text::str_eq(c[i].device_id.as_str(), id) {
            proof {
                assert(v[i as int].device_id == id@);
            }
            return;
        }
        i = i + 1;
    }
    c.push(MemberCandidate { device_id: id.to_owned(), device_name: name.to_owned(), source: source.to_owned() });
    proof {
        assert(candidates_view(c@) =~= v.push(CandidateView { device_id: id@, device_name: name@, source: source@ }));
    }
}

/// The devices a space member can be picked from: connected ones first,
/// then discovered ones, then trusted devices with a known id; each id
/// once, blank ids left out.
pub fn space_member_candidates(
    connections: &Vec<ConnectionEntry>,
    peers: &Vec<NearbyEntry>,
    trusted: &Vec<TrustedEntry>,
) -> (r: Vec<MemberCandidate>)
    ensures
        candidates_view(r@) == after_trusted(
            after_nearby(after_connections(Seq::empty(), connections@), peers@),
            trusted@,
        ),
{
    let mut c: Vec<MemberCandidate> = Vec::new();
    proof {
        assert(candidates_view(c@) =~= Seq::<CandidateView>::empty());
    }
    let mut i: usize = 0;
    while i < connections.len()
        invariant
            i <= connections@.len(),
            candidates_view(c@) == after_connections(Seq::empty(), connections@.take(i as int)),
        decreases connections@.len() - i,
    {
        proof {
            assert(connections@.take(i + 1).drop_last() =~= connections@.take(i as int));
        }
        add_candidate(&mut c, connections[i].device_id.as_str(), connections[i].device_name.as_str(), "Connected");
        i = i + 1;
    }
    proof {
        assert(connections@.take(connections@.len() as int) =~= connections@);
    }
    let ghost base = candidates_view(c@);
    let mut k: usize = 0;
    while k < peers.len()
        invariant
            k <= peers@.len(),
            candidates_view(c@) == after_nearby(base, peers@.take(k as int)),
        decreases peers@.len() - k,
    {
        proof {
            assert(peers@.take(k + 1).drop_last() =~= peers@.take(k as int));
        }
        let source = if peers[k].trusted {
            "Nearby trusted"
        } else {
            "Nearby"
        };
        add_candidate(&mut c, peers[k].device_id.as_str(), peers[k].device_name.as_str(), source);
        k = k + 1;
    }
    proof {
        assert(peers@.take(peers@.len() as int) =~= peers@);
    }
    let ghost base2 = candidates_view(c@);
    let mut m: usize = 0;
    while m < trusted.len()
        invariant
            m <= trusted@.len(),
            candidates_view(c@) == after_trusted(base2, trusted@.take(m as int)),
        decreases trusted@.len() - m,
    {
        proof {
            assert(trusted@.take(m + 1).drop_last() =~= trusted@.take(m as int));
        }
        match &trusted[m].device_id {
            Some(id) => {
                add_candidate(&mut c, id.as_str(), trusted[m].name.as_str(), "Trusted");
            },
            None => {},
        }
        m = m + 1;
    }
    proof {
        assert(trusted@.take(trusted@.len() as int) =~= trusted@);
    }
    c
}

} // verus!
