use locallink::config::{generate_psk_b64, Config, StartupPreferences};
use locallink::discovery::{
    accept_discovery_message, check_core_space_service_message, core_space_service_auth_bytes, decimal_string,
    interface_indices, listed_interface_indices, local_macs_from_getmac, sign_core_space_service_message,
    verify_core_space_service_message, CoreSpaceServiceDiscoveryMessage, DiscoveryError, PeerTable, PEER_TTL_MS,
    CORE_SPACE_SERVICE_KIND,
};

fn config(device_id: &str, psk: &str) -> Config {
    Config { device_id: device_id.to_string(), device_name: "Desk".to_string(), psk_b64: Some(psk.to_string()), startup: StartupPreferences::default() }
}

fn message(target: &str) -> CoreSpaceServiceDiscoveryMessage {
    CoreSpaceServiceDiscoveryMessage {
        app: "locallink".to_string(),
        version: 1,
        kind: CORE_SPACE_SERVICE_KIND.to_string(),
        device_id: "sender".to_string(),
        device_name: "Sender".to_string(),
        tcp_port: 47800,
        macs: vec!["aa:bb:cc:dd:ee:ff".to_string()],
        target_device_id: target.to_string(),
        message_id: "m-1".to_string(),
        service: "locallink.space.sync".to_string(),
        space_id: "office".to_string(),
        target_peer_id: None,
        data_b64: "eyJ0eXBlIjoieCJ9".to_string(),
        auth_b64: String::new(),
    }
}

#[test]
fn decimal_string_writes_numbers() {
    assert_eq!(decimal_string(0), "0");
    assert_eq!(decimal_string(47800), "47800");
    assert_eq!(decimal_string(u64::MAX), u64::MAX.to_string());
}

#[test]
fn auth_text_lists_the_signed_fields() {
    let text = core_space_service_auth_bytes(&message("desk"));
    assert_eq!(text, "locallink\n1\ncore_space_service\nsender\ndesk\nm-1\noffice\nlocallink.space.sync\n\neyJ0eXBlIjoieCJ9\n47800");
}

#[test]
fn signed_message_verifies_and_is_accepted() {
    let psk = generate_psk_b64().unwrap();
    let sender = config("sender", &psk);
    let receiver = config("desk", &psk);
    let mut msg = message("desk");
    msg.auth_b64 = sign_core_space_service_message(&sender, &msg).ok().expect("key is set");
    assert!(verify_core_space_service_message(&receiver, &msg).is_ok());
    assert_eq!(check_core_space_service_message(&receiver, &msg).ok(), Some(true));
}

#[test]
fn tampered_or_foreign_messages_are_refused() {
    let psk = generate_psk_b64().unwrap();
    let sender = config("sender", &psk);
    let receiver = config("desk", &psk);
    let mut msg = message("desk");
    msg.auth_b64 = sign_core_space_service_message(&sender, &msg).ok().expect("key is set");

    let mut tampered = copy_message(&msg);
    tampered.space_id = "other".to_string();
    assert!(matches!(verify_core_space_service_message(&receiver, &tampered), Err(DiscoveryError::AuthFailed)));

    let other_key = config("desk", &generate_psk_b64().unwrap());
    assert!(matches!(verify_core_space_service_message(&other_key, &msg), Err(DiscoveryError::AuthFailed)));

    let mut bad_auth = copy_message(&msg);
    bad_auth.auth_b64 = "***".to_string();
    assert!(matches!(verify_core_space_service_message(&receiver, &bad_auth), Err(DiscoveryError::BadAuthEncoding)));
}

fn copy_message(m: &CoreSpaceServiceDiscoveryMessage) -> CoreSpaceServiceDiscoveryMessage {
        CoreSpaceServiceDiscoveryMessage {
            app: m.app.clone(),
            version: m.version,
            kind: m.kind.clone(),
            device_id: m.device_id.clone(),
            device_name: m.device_name.clone(),
            tcp_port: m.tcp_port,
            macs: m.macs.clone(),
            target_device_id: m.target_device_id.clone(),
            message_id: m.message_id.clone(),
            service: m.service.clone(),
            space_id: m.space_id.clone(),
            target_peer_id: m.target_peer_id.clone(),
            data_b64: m.data_b64.clone(),
            auth_b64: m.auth_b64.clone(),
        }
}

#[test]
fn messages_for_other_devices_are_ignored() {
    let psk = generate_psk_b64().unwrap();
    let receiver = config("desk", &psk);
    assert_eq!(check_core_space_service_message(&receiver, &message("laptop")).ok(), Some(false));
}

#[test]
fn header_mismatches_are_reported() {
    let receiver = config("desk", &generate_psk_b64().unwrap());
    let mut msg = message("desk");
    msg.app = "other".to_string();
    assert!(matches!(check_core_space_service_message(&receiver, &msg), Err(DiscoveryError::AppMismatch)));
    let mut msg = message("desk");
    msg.version = 2;
    assert!(matches!(check_core_space_service_message(&receiver, &msg), Err(DiscoveryError::VersionMismatch)));
    let mut msg = message("desk");
    msg.kind = "announce".to_string();
    assert!(matches!(check_core_space_service_message(&receiver, &msg), Err(DiscoveryError::KindMismatch)));
    let mut msg = message("desk");
    msg.data_b64 = "%%%".to_string();
    assert!(matches!(check_core_space_service_message(&receiver, &msg), Err(DiscoveryError::BadData)));
}

#[test]
fn announcements_from_self_or_other_apps_are_dropped() {
    assert!(accept_discovery_message("locallink", "laptop", "desk"));
    assert!(!accept_discovery_message("locallink", "desk", "desk"));
    assert!(!accept_discovery_message("other", "laptop", "desk"));
}

#[test]
fn peer_table_upserts_and_expires() {
    let mut table = PeerTable::new();
    assert!(table.upsert_peer("laptop".to_string(), "Laptop".to_string(), "[fe80::1]:47800".to_string(), vec![], 1_000));
    assert!(table.upsert_peer("phone".to_string(), "Phone".to_string(), "[fe80::2]:47800".to_string(), vec![], 5_000));
    assert!(!table.upsert_peer("laptop".to_string(), "Laptop 2".to_string(), "[fe80::1]:47800".to_string(), vec![], 9_000));
    assert_eq!(table.len(), 2);
    assert_eq!(table.get("laptop").map(|p| p.device_name.clone()), Some("Laptop 2".to_string()));

    assert_eq!(table.expire(5_000 + PEER_TTL_MS, PEER_TTL_MS), 0);
    assert_eq!(table.expire(5_001 + PEER_TTL_MS, PEER_TTL_MS), 1);
    assert!(table.get("phone").is_none());
    assert_eq!(table.len(), 1);

    let summaries = table.summaries();
    assert_eq!(summaries.len(), 1);
    assert_eq!(summaries[0].device_id, "laptop");
}

#[test]
fn interface_override_wins_when_it_is_a_nonzero_number() {
    let adapters = Some("12\n7\n".to_string());
    assert_eq!(interface_indices(&Some(" 5 ".to_string()), &adapters), vec![5]);
    assert_eq!(interface_indices(&Some("0".to_string()), &adapters), vec![12, 7]);
    assert_eq!(interface_indices(&Some("eth0".to_string()), &None), vec![0]);
}

#[test]
fn adapter_listing_is_read_line_by_line() {
    assert_eq!(listed_interface_indices("12\r\n7\r\n12\r\n0\r\nx\r\n 9 "), vec![12, 7, 9]);
    assert_eq!(listed_interface_indices(""), Vec::<u32>::new());
    assert_eq!(interface_indices(&None, &Some("\n\n".to_string())), vec![0]);
}

#[test]
fn getmac_output_gives_canonical_distinct_addresses() {
    let out = "\"AA-BB-CC-DD-EE-FF\",\"\\Device\\Tcpip_{1}\"\r\n\"00-11-22-33-44-55\",\"Media disconnected\"\r\n\"AA-BB-CC-DD-EE-FF\",\"x\"\r\n\"N/A\",\"Disabled\"\r\n";
    assert_eq!(
        local_macs_from_getmac(out),
        vec!["aa:bb:cc:dd:ee:ff".to_string(), "00:11:22:33:44:55".to_string()]
    );
}
