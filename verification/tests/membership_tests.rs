use locallink::membership::{
    ImportedSpaceInvite, SpaceInviteRecord, SpaceInviteStatus, SpaceMembershipRecord, SpaceMembershipStore, SpaceRole,
};
use locallink::spaces::{SpaceAddonState, SpaceKind, SpaceRecord, SpaceStore};
use locallink::strmap::StrMap;

fn spaces() -> SpaceStore {
    SpaceStore {
        spaces: vec![SpaceRecord {
            space_id: "office".to_string(),
            name: "Office".to_string(),
            kind: SpaceKind::Group,
            active: false,
            members: Vec::new(),
            addons: StrMap::new(),
        }],
    }
}

#[test]
fn owner_invite_does_not_auto_add_member() {
    let spaces = spaces();
    let mut store = SpaceMembershipStore::default();
    store.ensure_owned_space(&spaces, "office", "owner").unwrap();

    let invite = store
        .create_invite(&spaces, "owner", "office", "laptop")
        .unwrap();

    assert_eq!(invite.target_peer_id, "laptop");
    assert_eq!(store.invites.len(), 1);
    assert!(spaces.spaces[0].members.is_empty());
}

#[test]
fn non_owner_cannot_invite() {
    let spaces = spaces();
    let mut store = SpaceMembershipStore::default();
    store.ensure_owned_space(&spaces, "office", "owner").unwrap();

    assert!(store
        .create_invite(&spaces, "laptop", "office", "phone")
        .is_err());
}

#[test]
fn imported_invite_requires_acceptance() {
    let mut spaces = SpaceStore::default();
    let mut store = SpaceMembershipStore::default();
    store
        .import_invite(
            &mut spaces,
            "laptop",
            ImportedSpaceInvite {
                space_id: "office".to_string(),
                name: "Office".to_string(),
                kind: SpaceKind::Group,
                owner_device_id: "owner".to_string(),
                invite_id: "invite-1".to_string(),
                revision: 7,
                owner_enabled: true,
                members: vec!["owner".to_string()],
                key_epoch: 3,
            },
        )
        .unwrap();

    let record = store.records.get("office").unwrap();
    assert_eq!(record.role, SpaceRole::Member);
    assert_eq!(record.revision, 7);
    assert_eq!(record.key_epoch, 3);
    assert_eq!(
        record.invite_state.as_ref().map(|state| &state.status),
        Some(&SpaceInviteStatus::Pending)
    );
}

#[test]
fn accepting_invite_adds_local_member_to_cached_space() {
    let mut spaces = SpaceStore::default();
    let mut store = SpaceMembershipStore::default();
    store
        .import_invite(
            &mut spaces,
            "laptop",
            ImportedSpaceInvite {
                space_id: "office".to_string(),
                name: "Office".to_string(),
                kind: SpaceKind::Group,
                owner_device_id: "owner".to_string(),
                invite_id: "invite-1".to_string(),
                revision: 1,
                owner_enabled: true,
                members: vec!["owner".to_string()],
                key_epoch: 1,
            },
        )
        .unwrap();

    let space = store.accept_invite(&mut spaces, "laptop", "office").unwrap();

    assert!(space.members.iter().any(|member| member == "laptop"));
    assert_eq!(
        store
            .records
            .get("office")
            .and_then(|record| record.invite_state.as_ref())
            .map(|state| &state.status),
        Some(&SpaceInviteStatus::Accepted)
    );
}

#[test]
fn owner_records_acceptance_and_gets_update_snapshot() {
    let mut spaces = spaces();
    let mut store = SpaceMembershipStore::default();
    store.ensure_owned_space(&spaces, "office", "owner").unwrap();
    store
        .create_invite(&spaces, "owner", "office", "laptop")
        .unwrap();

    let update = store
        .record_member_acceptance(&mut spaces, "owner", "office", "laptop")
        .unwrap();

    assert!(spaces.spaces[0].members.iter().any(|member| member == "laptop"));
    assert_eq!(store.invites[0].status, SpaceInviteStatus::Accepted);
    assert_eq!(update.message_type, "space_update");
}

#[test]
fn leaving_space_clears_local_runtime_state() {
    let mut spaces = SpaceStore::default();
    let mut store = SpaceMembershipStore::default();
    store
        .import_invite(
            &mut spaces,
            "laptop",
            ImportedSpaceInvite {
                space_id: "office".to_string(),
                name: "Office".to_string(),
                kind: SpaceKind::Group,
                owner_device_id: "owner".to_string(),
                invite_id: "invite-1".to_string(),
                revision: 1,
                owner_enabled: true,
                members: vec!["owner".to_string(), "laptop".to_string()],
                key_epoch: 1,
            },
        )
        .unwrap();
    store.accept_invite(&mut spaces, "laptop", "office").unwrap();
    spaces.spaces[0].active = true;
    spaces.spaces[0]
        .addons
        .insert("clipboard".to_string(), SpaceAddonState { enabled: true });

    let space = store.leave_space(&mut spaces, "laptop", "office").unwrap();
    let record = store.records.get("office").unwrap();

    assert!(record.left);
    assert_eq!(record.key_epoch, 0);
    assert!(!space.active);
    assert!(space.addons.is_empty());
}

fn invite(id: &str, space: &str, target: &str) -> SpaceInviteRecord {
    SpaceInviteRecord {
        invite_id: id.to_string(),
        space_id: space.to_string(),
        target_peer_id: target.to_string(),
        invited_by: " owner ".to_string(),
        revision: 0,
        status: SpaceInviteStatus::Pending,
    }
}

fn invite_summary(store: &SpaceMembershipStore) -> Vec<(String, String, String, String, u64)> {
    store
        .invites
        .iter()
        .map(|i| {
            (
                i.invite_id.clone(),
                i.space_id.clone(),
                i.target_peer_id.clone(),
                i.invited_by.clone(),
                i.revision,
            )
        })
        .collect()
}

#[test]
fn repairing_a_repaired_membership_changes_nothing() {
    let mut spaces = spaces();
    spaces.spaces[0].active = true;
    let mut store = SpaceMembershipStore::default();
    store.records.insert(
        "office".to_string(),
        SpaceMembershipRecord {
            space_id: " office ".to_string(),
            role: SpaceRole::Member,
            owner_device_id: " owner ".to_string(),
            revision: 0,
            owner_enabled: true,
            key_epoch: 0,
            left: true,
            invite_state: None,
        },
    );
    store.records.insert(
        "gone".to_string(),
        SpaceMembershipRecord {
            space_id: "gone".to_string(),
            role: SpaceRole::Owner,
            owner_device_id: "owner".to_string(),
            revision: 2,
            owner_enabled: true,
            key_epoch: 1,
            left: false,
            invite_state: None,
        },
    );
    store.invites = vec![
        invite(" b ", "office", "phone"),
        invite("a", " office", "laptop"),
        invite("a", "office", "laptop"),
        invite("c", "gone", "tablet"),
    ];

    store.validate_and_repair(&mut spaces).unwrap();
    let record = store.records.get("office").unwrap();
    assert_eq!(record.space_id, "office");
    assert_eq!(record.owner_device_id, "owner");
    assert_eq!(record.revision, 1);
    assert_eq!(record.key_epoch, 0);
    assert!(store.records.get("gone").is_none());
    assert!(!spaces.spaces[0].active);
    let first = invite_summary(&store);
    assert_eq!(
        first,
        vec![
            ("a".to_string(), "office".to_string(), "laptop".to_string(), "owner".to_string(), 1),
            ("b".to_string(), "office".to_string(), "phone".to_string(), "owner".to_string(), 1),
        ]
    );

    store.validate_and_repair(&mut spaces).unwrap();
    assert_eq!(invite_summary(&store), first);
    assert_eq!(store.records.len(), 1);
    let again = store.records.get("office").unwrap();
    assert_eq!(again.space_id, "office");
    assert_eq!(again.revision, 1);
    assert_eq!(again.key_epoch, 0);
    assert!(again.left);
    assert!(!spaces.spaces[0].active);
    assert_eq!(spaces.spaces[0].name, "Office");
}

#[test]
fn new_invites_get_a_fresh_uuid() {
    let spaces = spaces();
    let mut store = SpaceMembershipStore::default();
    store.ensure_owned_space(&spaces, "office", "owner").unwrap();
    let first = store.create_invite(&spaces, "owner", "office", "laptop").unwrap();
    let second = store.create_invite(&spaces, "owner", "office", "phone").unwrap();
    for id in [&first.invite_id, &second.invite_id] {
        assert_eq!(id.len(), 36);
        let dashes: Vec<usize> = id.char_indices().filter(|(_, c)| *c == '-').map(|(i, _)| i).collect();
        assert_eq!(dashes, vec![8, 13, 18, 23]);
        assert!(id.chars().all(|c| c == '-' || c.is_ascii_digit() || ('a'..='f').contains(&c)));
        assert_eq!(id.as_bytes()[14], b'4');
    }
    assert_ne!(first.invite_id, second.invite_id);
    assert_eq!(store.records.get("office").unwrap().revision, 3);
}

#[test]
fn an_invite_with_a_given_id_is_appended_and_bumps_the_revision() {
    let spaces = spaces();
    let mut store = SpaceMembershipStore::default();
    store.ensure_owned_space(&spaces, "office", "owner").unwrap();
    let invite = store
        .create_invite_with_id(&spaces, "owner", "office", " laptop ", "invite-7".to_string())
        .unwrap();
    assert_eq!(invite.invite_id, "invite-7");
    assert_eq!(invite.target_peer_id, "laptop");
    assert_eq!(invite.invited_by, "owner");
    assert_eq!(invite.revision, 2);
    assert_eq!(invite.status, SpaceInviteStatus::Pending);
    assert_eq!(store.invites.len(), 1);
    assert_eq!(store.records.get("office").unwrap().revision, 2);
    // a pending invite for the same target is handed back, whatever id is offered
    let again = store
        .create_invite_with_id(&spaces, "owner", "office", "laptop", "invite-8".to_string())
        .unwrap();
    assert_eq!(again.invite_id, "invite-7");
    assert_eq!(store.invites.len(), 1);
    assert!(store.create_invite_with_id(&spaces, "laptop", "office", "phone", "x".to_string()).is_err());
}
