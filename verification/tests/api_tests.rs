use locallink::api::{
    add_space_member, arg_name, close_reason, command_name, command_timeout_ms, create_space, error_message,
    space_error_message, decide_connect, disconnect_targets, event_consumer,
    event_limit, event_wait_ms, find_connect_target, list_spaces, parse_command, peer_rows, remove_space_member,
    space_message_targets, untrusted_peer_ids, ApiCommand, ApiError, ConnectStatus, PeerSummary,
};
use locallink::api::{sort_connection_rows, ConnectionRow};
use locallink::config::TrustedDevice;
use locallink::discovery::PeerRecord;
use locallink::strset::StrSet;
use locallink::spaces::{SpaceError, SpaceKind, SpaceRecord, SpaceStore};
use locallink::strmap::StrMap;

fn space(id: &str, name: &str, kind: SpaceKind, members: &[&str]) -> SpaceRecord {
    SpaceRecord {
        space_id: id.to_string(),
        name: name.to_string(),
        kind,
        active: true,
        members: members.iter().map(|m| m.to_string()).collect(),
        addons: StrMap::new(),
    }
}

fn peer(id: &str, macs: &[&str]) -> PeerSummary {
    PeerSummary {
        device_id: id.to_string(),
        device_name: id.to_uppercase(),
        macs: macs.iter().map(|m| m.to_string()).collect(),
    }
}

#[test]
fn commands_are_recognised_by_name() {
    assert_eq!(parse_command("status"), Some(ApiCommand::Status));
    assert_eq!(parse_command("wait_events"), Some(ApiCommand::WaitEvents));
    assert_eq!(parse_command("Status"), None);
    assert_eq!(parse_command(""), None);
}

#[test]
fn waiting_for_events_gets_a_longer_timeout() {
    assert_eq!(command_timeout_ms("wait_events"), 40000);
    assert_eq!(command_timeout_ms("status"), 5000);
}

#[test]
fn event_options_are_clamped() {
    assert_eq!(event_limit(None), 100);
    assert_eq!(event_limit(Some(0)), 1);
    assert_eq!(event_limit(Some(5000)), 1000);
    assert_eq!(event_limit(Some(42)), 42);
    assert_eq!(event_wait_ms(None), 30000);
    assert_eq!(event_wait_ms(Some(0)), 1);
    assert_eq!(event_wait_ms(Some(90000)), 30000);
    assert_eq!(event_consumer(None), "default");
    assert_eq!(event_consumer(Some("probe".to_string())), "probe");
    assert_eq!(close_reason(None), "normal");
}

#[test]
fn listed_spaces_are_sorted_by_name_then_id() {
    let store = SpaceStore {
        spaces: vec![
            space("b", "Zeta", SpaceKind::Group, &[]),
            space("c", "Alpha", SpaceKind::Group, &[]),
            space("a", "Alpha", SpaceKind::Group, &[]),
        ],
    };
    let ids: Vec<String> = list_spaces(&store).into_iter().map(|s| s.space_id).collect();
    assert_eq!(ids, vec!["a".to_string(), "c".to_string(), "b".to_string()]);
}

#[test]
fn create_space_adds_an_inactive_direct_space_by_default() {
    let mut store = SpaceStore { spaces: Vec::new() };
    let created = create_space(&mut store, Some("office".to_string()), None, None).ok().expect("new id");
    assert_eq!(created.space_id, "office");
    assert_eq!(created.name, "office");
    assert_eq!(created.kind, SpaceKind::Direct);
    assert!(!created.active);
    assert_eq!(store.spaces.len(), 1);
    assert!(matches!(
        create_space(&mut store, Some("office".to_string()), None, None),
        Err(ApiError::SpaceExists { .. })
    ));
    assert_eq!(store.spaces.len(), 1);
}

#[test]
fn create_space_without_id_makes_a_fresh_one() {
    let mut store = SpaceStore { spaces: Vec::new() };
    let created = create_space(&mut store, None, Some("Team".to_string()), Some(SpaceKind::Group))
        .ok()
        .expect("fresh id");
    assert_eq!(created.name, "Team");
    assert_eq!(created.kind, SpaceKind::Group);
    let id = created.space_id.clone();
    assert_eq!(id.len(), 36);
    assert_eq!(id.as_bytes()[14], b'4');
    assert_eq!(store.spaces.len(), 1);
    assert_eq!(store.spaces[0].space_id, id);
    assert!(!store.spaces[0].active);
    let other = create_space(&mut store, None, None, None).ok().expect("second fresh id");
    assert_ne!(other.space_id, id);
    assert_eq!(other.name, other.space_id);
    assert_eq!(other.kind, SpaceKind::Direct);
}

#[test]
fn members_are_added_and_removed() {
    let mut store = SpaceStore { spaces: vec![space("office", "Office", SpaceKind::Group, &["b"])] };
    let s = add_space_member(&mut store, Some("office".to_string()), Some("a".to_string())).ok().expect("known space");
    assert_eq!(s.members, vec!["a".to_string(), "b".to_string()]);
    let s = remove_space_member(&mut store, Some("office".to_string()), Some("b".to_string())).ok().expect("known space");
    assert_eq!(s.members, vec!["a".to_string()]);
    assert!(matches!(
        add_space_member(&mut store, None, Some("a".to_string())),
        Err(ApiError::Missing { command: ApiCommand::AddSpaceMember, .. })
    ));
    assert!(matches!(
        add_space_member(&mut store, Some("nowhere".to_string()), Some("a".to_string())),
        Err(ApiError::UnknownSpace { .. })
    ));
}

#[test]
fn space_messages_go_to_members() {
    let store = SpaceStore {
        spaces: vec![
            space("office", "Office", SpaceKind::Group, &["a", "b"]),
            space("empty", "Empty", SpaceKind::Group, &[]),
        ],
    };
    assert_eq!(space_message_targets(&store, "office", &None).ok(), Some(vec!["a".to_string(), "b".to_string()]));
    assert_eq!(space_message_targets(&store, "office", &Some("b".to_string())).ok(), Some(vec!["b".to_string()]));
    assert!(matches!(space_message_targets(&store, "office", &Some("c".to_string())), Err(ApiError::TargetNotMember { .. })));
    assert!(matches!(space_message_targets(&store, "empty", &None), Err(ApiError::NoMembers { .. })));
    assert!(matches!(space_message_targets(&store, "gone", &None), Err(ApiError::UnknownSpace { .. })));
}

#[test]
fn connect_target_is_found_by_id_or_address() {
    let peers = vec![peer("laptop", &["aa:bb:cc:dd:ee:ff"]), peer("phone", &["00:11:22:33:44:55"])];
    assert_eq!(find_connect_target(&peers, &Some("phone".to_string()), &None), Some(1));
    assert_eq!(find_connect_target(&peers, &None, &Some("AA-BB-CC-DD-EE-FF".to_string())), Some(0));
    assert_eq!(find_connect_target(&peers, &Some("tv".to_string()), &None), None);
}

#[test]
fn disconnect_targets_collect_named_and_matching_peers() {
    let peers = vec![
        peer("laptop", &["aa:bb:cc:dd:ee:ff"]),
        peer("dock", &["AA-BB-CC-DD-EE-FF"]),
        peer("phone", &["00:11:22:33:44:55"]),
    ];
    let r = disconnect_targets(&peers, &Some("phone".to_string()), &Some("aabbccddeeff".to_string())).ok().expect("some");
    assert_eq!(r, vec!["dock".to_string(), "laptop".to_string(), "phone".to_string()]);
    assert!(matches!(disconnect_targets(&peers, &None, &None), Err(ApiError::NoDisconnectTarget)));
}

fn trusted(name: &str, macs: &[&str], device_id: Option<&str>, blocked: bool) -> TrustedDevice {
    TrustedDevice {
        name: name.to_string(),
        macs: macs.iter().map(|m| m.to_string()).collect(),
        device_id: device_id.map(|d| d.to_string()),
        blocked,
    }
}

#[test]
fn connecting_needs_a_trusted_address() {
    let peers = vec![peer("laptop", &["aa:bb:cc:dd:ee:ff"]), peer("phone", &["00:11:22:33:44:55"])];
    let devices = vec![trusted("Laptop", &["AA-BB-CC-DD-EE-FF"], None, false), trusted("Phone", &["00-11-22-33-44-55"], None, true)];
    let none = StrSet::new();
    let r = decide_connect(&peers, &devices, &none, &none, &Some("laptop".to_string()), &None);
    assert!(matches!(r, Ok((0, ConnectStatus::Connecting))));
    assert!(matches!(decide_connect(&peers, &devices, &none, &none, &Some("phone".to_string()), &None), Err(ApiError::NotTrusted)));
    assert!(matches!(decide_connect(&peers, &devices, &none, &none, &Some("tv".to_string()), &None), Err(ApiError::NoMatchingPeer)));
    let connected = StrSet::from_vec(&vec!["laptop".to_string()]);
    assert!(matches!(
        decide_connect(&peers, &devices, &connected, &none, &None, &Some("aabbccddeeff".to_string())),
        Ok((0, ConnectStatus::AlreadyConnected))
    ));
    assert!(matches!(
        decide_connect(&peers, &devices, &none, &connected, &Some("laptop".to_string()), &None),
        Ok((0, ConnectStatus::AlreadyConnecting))
    ));
}

#[test]
fn untrusting_an_address_names_devices_and_peers_to_drop() {
    let devices = vec![
        trusted("Laptop", &["aa:bb:cc:dd:ee:ff"], Some("laptop-id"), false),
        trusted("Old", &["AA-BB-CC-DD-EE-FF"], None, false),
        trusted("Phone", &["00:11:22:33:44:55"], Some("phone-id"), false),
    ];
    let peers = vec![peer("dock", &["aabbccddeeff"]), peer("laptop-id", &["aa:bb:cc:dd:ee:ff"])];
    assert_eq!(
        untrusted_peer_ids(&devices, &peers, "AA:BB:CC:DD:EE:FF"),
        vec!["dock".to_string(), "laptop-id".to_string()]
    );
    assert!(untrusted_peer_ids(&devices, &peers, "12:34:56:78:9a:bc").is_empty());
}

#[test]
fn peer_rows_are_sorted_by_name_and_marked() {
    let records = vec![
        PeerRecord { device_id: "a".to_string(), device_name: "Zed".to_string(), addr: "x".to_string(), macs: vec!["aa:bb:cc:dd:ee:ff".to_string()], last_seen_ms: 100 },
        PeerRecord { device_id: "b".to_string(), device_name: "Amy".to_string(), addr: "y".to_string(), macs: Vec::new(), last_seen_ms: 900 },
    ];
    let devices = vec![trusted("Desk", &["aa:bb:cc:dd:ee:ff"], None, false)];
    let connected = StrSet::from_vec(&vec!["b".to_string()]);
    let rows = peer_rows(&records, &devices, &connected, 1000);
    assert_eq!(rows[0].device_id, "b");
    assert!(rows[0].connected);
    assert!(!rows[0].trusted);
    assert_eq!(rows[0].last_seen_ms_ago, 100);
    assert_eq!(rows[1].device_id, "a");
    assert!(rows[1].trusted);
    assert_eq!(rows[1].trusted_name.as_deref(), Some("Desk"));
    assert_eq!(rows[1].last_seen_ms_ago, 900);
}

#[test]
fn errors_are_answered_with_readable_messages() {
    assert_eq!(
        error_message(&ApiError::NotTrusted),
        "Device is visible, but none of its MAC addresses are trusted yet"
    );
    assert_eq!(
        error_message(&ApiError::NoMatchingPeer),
        "No nearby discovered device matched that device ID or MAC"
    );
    assert_eq!(
        error_message(&ApiError::Missing { command: ApiCommand::AddSpaceMember, arg: locallink::api::ApiArg::PeerId }),
        "add_space_member requires peer_id"
    );
    assert_eq!(error_message(&ApiError::SpaceExists { space_id: "office".to_string() }), "space already exists: office");
    assert_eq!(error_message(&ApiError::NoMembers { space_id: "office".to_string() }), "space has no members: office");
    assert_eq!(
        space_error_message(&SpaceError::DirectSpaceHasManyMembers { space_id: "pair".to_string() }),
        "direct space pair cannot contain more than one member"
    );
    assert_eq!(
        error_message(&ApiError::Space(SpaceError::DuplicateSpaceId { space_id: "x".to_string() })),
        "duplicate space_id: x"
    );
    assert_eq!(command_name(ApiCommand::WaitEvents), "wait_events");
    assert_eq!(parse_command(command_name(ApiCommand::ChannelClose)), Some(ApiCommand::ChannelClose));
    assert_eq!(arg_name(locallink::api::ApiArg::DataB64), "data_b64");
}

#[test]
fn connections_are_listed_by_device_name() {
    let row = |id: &str, name: &str| ConnectionRow {
        device_id: id.to_string(),
        device_name: name.to_string(),
        addr: format!("{id}:1"),
        connected_ms_ago: 5,
        last_seen_ms_ago: 1,
    };
    let rows = vec![row("c", "Desk"), row("a", "Laptop"), row("b", "Desk"), row("d", "Attic")];
    let sorted: Vec<String> = sort_connection_rows(&rows).into_iter().map(|r| r.device_id).collect();
    assert_eq!(sorted, vec!["d", "c", "b", "a"]);
}
