use locallink::spaces::{SpaceKind, SpaceRecord};
use locallink::strmap::StrMap;
use locallink::sync::{decode_sync_message, encode_sync_message, imported_invite_from_space};

#[test]
fn sync_messages_round_trip_through_base64() {
    let message = br#"{"type":"invite_accept","space_id":"office","peer_id":"laptop"}"#.to_vec();

    let encoded = encode_sync_message(&message);
    let decoded = decode_sync_message(&encoded).unwrap();

    assert_eq!(decoded, message);
}

#[test]
fn imported_invite_snapshot_uses_space_metadata() {
    let space = SpaceRecord {
        space_id: "office".to_string(),
        name: "Office".to_string(),
        kind: SpaceKind::Group,
        active: false,
        members: vec!["owner".to_string()],
        addons: StrMap::new(),
    };

    let invite =
        imported_invite_from_space(&space, "owner", "invite-1".to_string(), 2, true, 1);

    assert_eq!(invite.space_id, "office");
    assert_eq!(invite.owner_device_id, "owner");
    assert_eq!(invite.members, vec!["owner".to_string()]);
}

#[test]
fn sync_messages_travel_as_standard_padded_base64() {
    assert_eq!(encode_sync_message(&b"hi".to_vec()), "aGk=");
    assert_eq!(encode_sync_message(&b"abc".to_vec()), "YWJj");
    assert_eq!(encode_sync_message(&b"a".to_vec()), "YQ==");
    assert_eq!(encode_sync_message(&Vec::new()), "");
    assert_eq!(encode_sync_message(&vec![0xfb, 0xff]), "+/8=");
    assert_eq!(decode_sync_message("YWJj").unwrap(), b"abc".to_vec());
    assert!(decode_sync_message("YWJ").is_err());
}
