use locallink::ui::{
    base64_decode_simple, classify_line, contains_text, controller_job_name, controller_request, ellipsize,
    empty_to_null, human_event_title, is_action_line, job_name, job_request, line_matches, non_empty, space_member_candidates,
    space_control_job_name, space_control_request, to_ascii_lowercase, ApiJob, ConnectionEntry, ControllerJob, FieldValue,
    NearbyEntry, RequestField, SourceKind, SpaceControlJob, TrustedEntry,
};

#[test]
fn jobs_are_reported_by_name() {
    assert_eq!(job_name(&ApiJob::Status), "status");
    assert_eq!(job_name(&ApiJob::AddSpaceMember { space_id: "s".to_string(), peer_id: "p".to_string() }), "add_space_member");
    assert_eq!(job_name(&ApiJob::Connect { mac: None, peer_id: None }), "connect");
}

#[test]
fn event_titles_are_readable() {
    assert_eq!(human_event_title("service_data"), "Message received");
    assert_eq!(human_event_title("channel_close"), "Channel closed");
    assert_eq!(human_event_title("custom"), "custom");
}

#[test]
fn blank_values_are_none() {
    assert_eq!(non_empty("   "), None);
    assert_eq!(non_empty(" peer "), Some("peer".to_string()));
}

#[test]
fn labels_are_shortened_with_an_ellipsis() {
    assert_eq!(ellipsize("  short  ", 10), "short");
    assert_eq!(ellipsize("abcdefghij", 6), "abc...");
    assert_eq!(ellipsize("abcdefghij", 2), "...");
    assert_eq!(ellipsize("äöüäöü", 5), "äö...");
}

#[test]
fn lower_case_touches_ascii_only() {
    assert_eq!(to_ascii_lowercase("MiXeD Ä"), "mixed Ä");
}

#[test]
fn substring_search_matches_str_contains() {
    assert!(contains_text("add-on launched", "launch"));
    assert!(contains_text("abc", ""));
    assert!(!contains_text("ab", "abc"));
    assert!(!contains_text("abc", "ac"));
}

#[test]
fn log_lines_are_classified() {
    assert_eq!(classify_line("Could not start add-on x"), "ERROR");
    assert_eq!(classify_line("action ApiJob status"), "ACTION");
    assert_eq!(classify_line("set_space_active office"), "STATE");
    assert_eq!(classify_line("Started add-on office:clipboard"), "LAUNCH");
    assert_eq!(classify_line("[addon-manager] plan"), "PLAN");
    assert_eq!(classify_line("probe_ping sent"), "PROBE");
    assert_eq!(classify_line("heartbeat"), "DEBUG");
}

#[test]
fn log_viewer_filters_lines() {
    assert!(is_action_line("started add-on x"));
    assert!(!is_action_line("heartbeat"));
    assert!(line_matches("", false, "Started add-on office"));
    assert!(!line_matches("", false, "heartbeat"));
    assert!(line_matches("", true, "heartbeat"));
    assert!(line_matches(" OFFICE ", false, "Started add-on office"));
    assert!(!line_matches("desk", false, "Started add-on office"));
}

#[test]
fn source_labels() {
    assert_eq!(SourceKind::Core.label(), "CORE");
    assert_eq!(SourceKind::SpaceProbe.label(), "PROBE");
}

#[test]
fn simple_base64_reads_whole_groups() {
    assert_eq!(base64_decode_simple("aGk=").ok(), Some(b"hi".to_vec()));
    assert_eq!(base64_decode_simple("aGVsbG8=").ok(), Some(b"hello".to_vec()));
    assert_eq!(base64_decode_simple("TWFu").ok(), Some(b"Man".to_vec()));
    assert_eq!(base64_decode_simple("TWFuTQ").ok(), Some(b"Man".to_vec()));
    assert_eq!(base64_decode_simple("").ok(), Some(Vec::new()));
    assert!(base64_decode_simple("*WFu").is_err());
}

#[test]
fn space_member_candidates_list_each_device_once() {
    let connections = vec![
        ConnectionEntry { device_id: "laptop".to_string(), device_name: "Laptop".to_string() },
        ConnectionEntry { device_id: "  ".to_string(), device_name: "Blank".to_string() },
    ];
    let peers = vec![
        NearbyEntry { device_id: "laptop".to_string(), device_name: "Laptop again".to_string(), trusted: true },
        NearbyEntry { device_id: "phone".to_string(), device_name: "Phone".to_string(), trusted: true },
        NearbyEntry { device_id: "tv".to_string(), device_name: "TV".to_string(), trusted: false },
    ];
    let trusted = vec![
        TrustedEntry { name: "Desk".to_string(), device_id: Some("desk".to_string()) },
        TrustedEntry { name: "Old".to_string(), device_id: None },
        TrustedEntry { name: "Phone".to_string(), device_id: Some("phone".to_string()) },
    ];
    let c = space_member_candidates(&connections, &peers, &trusted);
    let rows: Vec<(String, String)> = c.into_iter().map(|m| (m.device_id, m.source)).collect();
    assert_eq!(
        rows,
        vec![
            ("laptop".to_string(), "Connected".to_string()),
            ("phone".to_string(), "Nearby trusted".to_string()),
            ("tv".to_string(), "Nearby".to_string()),
            ("desk".to_string(), "Trusted".to_string()),
        ]
    );
}

fn describe(fields: &[RequestField]) -> Vec<String> {
    fields
        .iter()
        .map(|f| match &f.value {
            FieldValue::Null => format!("{}=null", f.key),
            FieldValue::Text(t) => format!("{}={}", f.key, t),
            FieldValue::Flag(b) => format!("{}={}", f.key, b),
            FieldValue::Count(n) => format!("{}={}", f.key, n),
        })
        .collect()
}

#[test]
fn controller_jobs_send_their_command_and_arguments() {
    assert_eq!(controller_job_name(&ControllerJob::ListSpaceAddons), "list_space_addons");
    assert_eq!(describe(&controller_request(&ControllerJob::Status)), vec!["cmd=status"]);
    let create = ControllerJob::CreateSpace {
        name: "Office".to_string(),
        kind: "group".to_string(),
        member: "   ".to_string(),
    };
    assert_eq!(controller_job_name(&create), "create_space");
    assert_eq!(
        describe(&controller_request(&create)),
        vec!["cmd=create_space", "space_name=Office", "space_kind=group", "member_peer_id=null"]
    );
    let add = ControllerJob::AddSpaceMember { space_id: "office".to_string(), member: " laptop ".to_string() };
    assert_eq!(
        describe(&controller_request(&add)),
        vec!["cmd=add_space_member", "space_id=office", "member_peer_id= laptop "]
    );
    let set = ControllerJob::SetSpaceAddon {
        space_id: "office".to_string(),
        addon_id: "clipboard".to_string(),
        enabled: false,
    };
    assert_eq!(
        describe(&controller_request(&set)),
        vec!["cmd=set_space_addon_enabled", "space_id=office", "addon_id=clipboard", "enabled=false"]
    );
}

#[test]
fn blank_members_are_sent_as_null() {
    assert!(matches!(empty_to_null(" \t "), FieldValue::Null));
    match empty_to_null(" phone ") {
        FieldValue::Text(t) => assert_eq!(t, "phone"),
        _ => panic!("expected a text"),
    }
}

#[test]
fn panel_jobs_send_the_core_command_and_present_arguments() {
    assert_eq!(describe(&job_request(&ApiJob::Trusted)), vec!["cmd=list_trusted_devices"]);
    assert_eq!(
        describe(&job_request(&ApiJob::CreateSpace { name: "Office".to_string(), kind: "group".to_string() })),
        vec!["cmd=create_space", "name=Office", "kind=group"]
    );
    assert_eq!(
        describe(&job_request(&ApiJob::PollEvents { service: None })),
        vec!["cmd=poll_events", "max_events=100"]
    );
    assert_eq!(
        describe(&job_request(&ApiJob::PollEvents { service: Some("chat".to_string()) })),
        vec!["cmd=poll_events", "max_events=100", "service=chat"]
    );
    assert_eq!(
        describe(&job_request(&ApiJob::Connect { mac: Some("aa:bb".to_string()), peer_id: None })),
        vec!["cmd=connect_device", "mac=aa:bb"]
    );
    assert_eq!(
        describe(&job_request(&ApiJob::Disconnect { mac: None, peer_id: Some("laptop".to_string()) })),
        vec!["cmd=disconnect_device", "peer_id=laptop"]
    );
    assert_eq!(
        describe(&job_request(&ApiJob::RemoveSpaceMember { space_id: "office".to_string(), peer_id: "phone".to_string() })),
        vec!["cmd=remove_space_member", "space_id=office", "peer_id=phone"]
    );
}

#[test]
fn space_control_jobs_send_missing_values_as_null() {
    assert_eq!(space_control_job_name(&SpaceControlJob::SpaceAddons), "space_addons");
    assert_eq!(describe(&space_control_request(&SpaceControlJob::SpaceAddons)), vec!["cmd=list_space_addons"]);
    assert_eq!(
        describe(&space_control_request(&SpaceControlJob::PollEvents)),
        vec!["cmd=poll_events", "max_events=200"]
    );
    assert_eq!(
        describe(&space_control_request(&SpaceControlJob::Connect { mac: None, peer_id: Some("laptop".to_string()) })),
        vec!["cmd=connect_device", "mac=null", "peer_id=laptop"]
    );
    let create = SpaceControlJob::CreateSpace { name: "Office".to_string(), kind: "direct".to_string(), member: None };
    assert_eq!(space_control_job_name(&create), "create_space");
    assert_eq!(
        describe(&space_control_request(&create)),
        vec!["cmd=create_space", "space_name=Office", "space_kind=direct", "member_peer_id=null"]
    );
    let rename = SpaceControlJob::RenameSpace { space_id: "office".to_string(), name: "Studio".to_string() };
    assert_eq!(
        describe(&space_control_request(&rename)),
        vec!["cmd=rename_space", "space_id=office", "space_name=Studio"]
    );
}
