use locallink::clipboard::{ClipboardPayload, ClipboardSync};
use locallink::echo::echo_reply;
use locallink::probe::{
    answer_probe, check_probe_event, connected_members, consumer_id, probe_log_file_name, probe_ping, safe_filename,
    ProbeAnswer, ProbeEventCheck,
};

fn payload(ts_ms: u128, device_id: &str, text: &str) -> ClipboardPayload {
    ClipboardPayload { ts_ms, device_id: device_id.to_string(), device_name: "Peer".to_string(), text: text.to_string() }
}

#[test]
fn newest_clipboard_text_wins() {
    let mut sync = ClipboardSync::new("local".to_string(), 100);
    assert!(!sync.on_remote("me", &payload(50, "laptop", "older")));
    assert_eq!(sync.last_text, "local");
    assert!(!sync.on_remote("me", &payload(100, "laptop", "same time")));
    assert!(sync.on_remote("me", &payload(150, "laptop", "newer")));
    assert_eq!(sync.last_text, "newer");
    assert_eq!(sync.last_ts, 150);
    assert!(!sync.on_remote("me", &payload(200, "laptop", "newer")));
    assert_eq!(sync.last_ts, 150);
}

#[test]
fn own_clipboard_updates_are_ignored() {
    let mut sync = ClipboardSync::new("local".to_string(), 100);
    assert!(!sync.on_remote("me", &payload(500, "me", "echo")));
    assert_eq!(sync.last_text, "local");
}

#[test]
fn local_changes_are_sent_once() {
    let mut sync = ClipboardSync::new("a".to_string(), 1);
    assert!(sync.on_local("a", 5, "me", "Me").is_none());
    let sent = sync.on_local("b", 7, "me", "Me").expect("changed");
    assert_eq!(sent.text, "b");
    assert_eq!(sent.ts_ms, 7);
    assert_eq!(sent.device_id, "me");
    assert_eq!(sync.last_ts, 7);
    assert!(sync.on_local("b", 9, "me", "Me").is_none());
}

#[test]
fn echo_answers_messages_only() {
    assert_eq!(echo_reply("service_data", "hi"), Some("Echo addon on this device received: hi".to_string()));
    assert_eq!(echo_reply("channel_open", "hi"), None);
}

#[test]
fn probe_reads_only_its_space_data() {
    let office = Some("office".to_string());
    let data = Some("e30=".to_string());
    assert_eq!(check_probe_event("service_data", &office, "office", &data), ProbeEventCheck::NotSpaceData);
    assert_eq!(check_probe_event("space_service_data", &Some("desk".to_string()), "office", &data), ProbeEventCheck::SpaceMismatch);
    assert_eq!(check_probe_event("space_service_data", &None, "office", &data), ProbeEventCheck::SpaceMismatch);
    assert_eq!(check_probe_event("space_service_data", &office, "office", &None), ProbeEventCheck::MissingData);
    assert_eq!(check_probe_event("space_service_data", &office, "office", &data), ProbeEventCheck::Accepted);
}

#[test]
fn probe_answers_pings_from_others() {
    let ping = probe_ping(42, 1000, "office:probe@laptop", "laptop", "Laptop", "office");
    assert_eq!(ping.message_type, "probe_ping");
    assert!(matches!(answer_probe(&ping, "office:probe@laptop", "laptop", "Laptop", "office", 2000), ProbeAnswer::IgnoreOwn));
    match answer_probe(&ping, "office:probe@desk", "desk", "Desk", "office", 2000) {
        ProbeAnswer::Reply(pong) => {
            assert_eq!(pong.message_type, "probe_pong");
            assert_eq!(pong.seq, 42);
            assert_eq!(pong.ts_ms, 2000);
            assert_eq!(pong.origin_device_id, "desk");
            assert_eq!(pong.space_id.as_deref(), Some("office"));
            assert_eq!(pong.note, "reply to office:probe@laptop seq 42");
        },
        _ => panic!("a ping from another probe is answered"),
    }
    let mut pong = probe_ping(1, 1, "other", "x", "X", "office");
    pong.message_type = "probe_pong".to_string();
    assert!(matches!(answer_probe(&pong, "me", "d", "D", "office", 3), ProbeAnswer::Accept));
}

#[test]
fn probe_names_are_file_safe() {
    assert_eq!(safe_filename("office:probe@laptop"), "office_probe_laptop");
    assert_eq!(safe_filename("a-b_c9"), "a-b_c9");
    assert_eq!(probe_log_file_name("x/y"), "space-probe-x_y.log");
    assert_eq!(consumer_id("office:probe"), "space-probe:office:probe");
}

#[test]
fn connected_members_are_split_and_trimmed() {
    assert_eq!(connected_members(" laptop , ,phone,"), vec!["laptop".to_string(), "phone".to_string()]);
    assert!(connected_members("").is_empty());
}
